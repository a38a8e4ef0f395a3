//! The text format of map files.
//!
//! A map is a sequence of parenthesized entries separated by whitespace and
//! `#` line comments:
//!
//! ```text
//! # A house
//! (player x=0 y=1.8 z=-5 ra=90)
//! (box x=0 y=1 z=0 sx=4 sy=2 sz=4 mat='brick_01')
//! (sub (cylinder x=0 y=1 z=2 s=1 ra=90 rx=1 mat="glass_01"))
//! ```
//!
//! Parsing keeps every number as the span of text that spells it, so that the
//! caller decides how to read it; comments before entries are kept as spans
//! too, so that saving a map preserves them.
use vstd::prelude::*;
use crate::geometry::Brush;
use crate::world::{World, GridError, MAX_BRUSHES, SLOT_EMPTY, grid_error};

verus! {

// ---------------------------------------------------------------------
// Characters and tokens
// ---------------------------------------------------------------------

/// A range `start..end` of the map text.
#[derive(Clone, Copy, Debug, PartialEq, Eq, Structural)]
pub struct Span {
    pub start: usize,
    pub end: usize,
}

pub open spec fn content(t: Seq<u8>, s: Span) -> Seq<u8> {
    t.subrange(s.start as int, s.end as int)
}

pub open spec fn is_ws(c: u8) -> bool {
    c == 32 || c == 9 || c == 10 || c == 13
}

pub open spec fn is_alpha(c: u8) -> bool {
    (65 <= c <= 90) || (97 <= c <= 122) || c == 95
}

pub open spec fn is_digit(c: u8) -> bool {
    48 <= c <= 57
}

pub open spec fn is_ident_char(c: u8) -> bool {
    is_alpha(c) || is_digit(c)
}

/// Characters a number is read from: digits, signs, the point and exponents.
pub open spec fn is_num_char(c: u8) -> bool {
    is_digit(c) || c == 43 || c == 45 || c == 46 || c == 101 || c == 69
}

/// End of the whitespace and `#` comments that start at `p`.
pub open spec fn ws_end(t: Seq<u8>, p: int) -> int
    decreases t.len() - p,
{
    if 0 <= p < t.len() && is_ws(t[p]) {
        ws_end(t, p + 1)
    } else if 0 <= p < t.len() && t[p] == 35 {
        comment_end(t, p + 1)
    } else {
        p
    }
}

/// End of the trivia after a comment that is open at `p`.
pub open spec fn comment_end(t: Seq<u8>, p: int) -> int
    decreases t.len() - p,
{
    if !(0 <= p < t.len()) {
        p
    } else if t[p] == 10 {
        ws_end(t, p + 1)
    } else {
        comment_end(t, p + 1)
    }
}

pub open spec fn ident_end(t: Seq<u8>, p: int) -> int
    decreases t.len() - p,
{
    if 0 <= p < t.len() && is_ident_char(t[p]) {
        ident_end(t, p + 1)
    } else {
        p
    }
}

pub open spec fn num_end(t: Seq<u8>, p: int) -> int
    decreases t.len() - p,
{
    if 0 <= p < t.len() && is_num_char(t[p]) {
        num_end(t, p + 1)
    } else {
        p
    }
}

/// First position at or after `p` that holds `c`, or the end of the text.
pub open spec fn find_byte(t: Seq<u8>, p: int, c: u8) -> int
    decreases t.len() - p,
{
    if 0 <= p < t.len() && t[p] != c {
        find_byte(t, p + 1, c)
    } else if p < 0 {
        p
    } else {
        if p < t.len() {
            p
        } else {
            t.len() as int
        }
    }
}

pub proof fn lemma_ws_bounds(t: Seq<u8>, p: int)
    requires
        0 <= p <= t.len(),
    ensures
        p <= ws_end(t, p) <= t.len(),
        p <= comment_end(t, p) <= t.len(),
    decreases t.len() - p,
{
    if p < t.len() {
        lemma_ws_bounds(t, p + 1);
    }
}

pub proof fn lemma_ident_bounds(t: Seq<u8>, p: int)
    requires
        0 <= p <= t.len(),
    ensures
        p <= ident_end(t, p) <= t.len(),
    decreases t.len() - p,
{
    if p < t.len() {
        lemma_ident_bounds(t, p + 1);
    }
}

pub proof fn lemma_num_bounds(t: Seq<u8>, p: int)
    requires
        0 <= p <= t.len(),
    ensures
        p <= num_end(t, p) <= t.len(),
    decreases t.len() - p,
{
    if p < t.len() {
        lemma_num_bounds(t, p + 1);
    }
}

pub proof fn lemma_find_bounds(t: Seq<u8>, p: int, c: u8)
    requires
        0 <= p <= t.len(),
    ensures
        p <= find_byte(t, p, c) <= t.len(),
        find_byte(t, p, c) < t.len() ==> t[find_byte(t, p, c)] == c,
    decreases t.len() - p,
{
    if p < t.len() {
        lemma_find_bounds(t, p + 1, c);
    }
}

// ---------------------------------------------------------------------
// Numbers
// ---------------------------------------------------------------------

pub open spec fn digits_end(s: Seq<u8>, i: int) -> int
    decreases s.len() - i,
{
    if 0 <= i < s.len() && is_digit(s[i]) {
        digits_end(s, i + 1)
    } else {
        i
    }
}

pub open spec fn sign_skip(s: Seq<u8>, i: int) -> int {
    if 0 <= i < s.len() && (s[i] == 43 || s[i] == 45) {
        i + 1
    } else {
        i
    }
}

/// End of the exponent part at `i` (an `e` or `E`, a sign, digits), `i` when
/// there is none, and -1 when it is malformed.
pub open spec fn exponent_end(s: Seq<u8>, i: int) -> int {
    if 0 <= i < s.len() && (s[i] == 101 || s[i] == 69) {
        let j = sign_skip(s, i + 1);
        let e = digits_end(s, j);
        if e > j {
            e
        } else {
            -1
        }
    } else {
        i
    }
}

/// A decimal number: a sign, digits with an optional point and fraction (at
/// least one digit in all), and an optional exponent.
pub open spec fn valid_number(s: Seq<u8>) -> bool {
    let i0 = sign_skip(s, 0);
    let i1 = digits_end(s, i0);
    let has_point = i1 < s.len() && s[i1] == 46;
    let i2 = if has_point {
        digits_end(s, i1 + 1)
    } else {
        i1
    };
    let mantissa = (i1 - i0) + if has_point {
        i2 - i1 - 1
    } else {
        0
    };
    mantissa > 0 && exponent_end(s, i2) == s.len()
}

/// Every byte of `d` is a decimal digit.
pub open spec fn all_digits(d: Seq<u8>) -> bool {
    forall|j: int| 0 <= j < d.len() ==> 48 <= #[trigger] d[j] <= 57
}

/// A run of `k` digits at `i`, followed by the end or by a byte that is not
/// a digit, ends at `i + k`.
proof fn lemma_digit_run(s: Seq<u8>, i: int, k: int)
    requires
        0 <= i,
        0 <= k,
        i + k <= s.len(),
        forall|j: int| i <= j < i + k ==> is_digit(#[trigger] s[j]),
        i + k == s.len() || !is_digit(s[i + k]),
    ensures
        digits_end(s, i) == i + k,
    decreases k,
{
    if k > 0 {
        assert(is_digit(s[i]));
        lemma_digit_run(s, i + 1, k - 1);
    }
}

/// Law: every decimal written as an optional sign, a run of digits, an
/// optional point followed by a run of digits (at least one digit in the
/// two runs), and an optional exponent (`e` or `E`, an optional sign, one
/// digit or more) is a number; `0.25` and `-12.5e-3` among them.
pub proof fn law_decimal_forms_are_numbers(
    sign: Seq<u8>,
    int_digits: Seq<u8>,
    point: bool,
    frac_digits: Seq<u8>,
    exp: bool,
    e: u8,
    exp_sign: Seq<u8>,
    exp_digits: Seq<u8>,
)
    requires
        sign == Seq::<u8>::empty() || sign == seq![43u8] || sign == seq![45u8],
        all_digits(int_digits),
        all_digits(frac_digits),
        point || frac_digits.len() == 0,
        int_digits.len() + frac_digits.len() > 0,
        e == 101 || e == 69,
        exp_sign == Seq::<u8>::empty() || exp_sign == seq![43u8] || exp_sign == seq![45u8],
        all_digits(exp_digits),
        exp ==> exp_digits.len() > 0,
    ensures
        valid_number(
            sign + int_digits + (if point { seq![46u8] } else { Seq::<u8>::empty() }) + frac_digits + (if exp {
                seq![e] + exp_sign + exp_digits
            } else {
                Seq::<u8>::empty()
            }),
        ),
{
    let pt = if point { seq![46u8] } else { Seq::<u8>::empty() };
    let ex = if exp { seq![e] + exp_sign + exp_digits } else { Seq::<u8>::empty() };
    let s = sign + int_digits + pt + frac_digits + ex;
    let i0 = sign.len() as int;
    let i1 = i0 + int_digits.len();
    let i2 = i1 + pt.len() + frac_digits.len();
    assert(s.len() == i2 + ex.len());
    assert forall|j: int| 0 <= j < sign.len() implies s[j] == #[trigger] sign[j] by {}
    assert forall|j: int| 0 <= j < int_digits.len() implies s[i0 + j] == #[trigger] int_digits[j] by {}
    assert forall|j: int| 0 <= j < frac_digits.len() implies s[i1 + pt.len() + j] == #[trigger] frac_digits[j] by {}
    assert forall|j: int| 0 <= j < ex.len() implies s[i2 + j] == #[trigger] ex[j] by {}
    if point {
        assert(s[i1] == 46u8);
    }
    // The sign
    if sign.len() == 0 {
        assert(s.len() > 0);
        if int_digits.len() > 0 {
            assert(s[0] == int_digits[0]);
        } else {
            assert(s[0] == 46u8);
        }
    } else {
        assert(s[0] == sign[0]);
    }
    assert(sign_skip(s, 0) == i0);
    // The integer digits
    assert forall|j: int| i0 <= j < i1 implies is_digit(#[trigger] s[j]) by {
        assert(s[i0 + (j - i0)] == int_digits[j - i0]);
    }
    if i1 < s.len() {
        if point {
        } else if exp {
            assert(s[i1] == ex[0]);
        }
    }
    lemma_digit_run(s, i0, int_digits.len() as int);
    // The fraction
    if point {
        assert forall|j: int| i1 + 1 <= j < i2 implies is_digit(#[trigger] s[j]) by {
            assert(s[i1 + 1 + (j - i1 - 1)] == frac_digits[j - i1 - 1]);
        }
        if i2 < s.len() {
            assert(s[i2] == ex[0]);
        }
        lemma_digit_run(s, i1 + 1, frac_digits.len() as int);
    }
    // The exponent
    if exp {
        assert(ex[0] == e);
        assert(s[i2] == e);
        let j = i2 + 1 + exp_sign.len();
        if exp_sign.len() == 0 {
            assert(ex[1] == exp_digits[0]);
            assert(s[i2 + 1] == exp_digits[0]);
        } else {
            assert(ex[1] == exp_sign[0]);
            assert(s[i2 + 1] == exp_sign[0]);
        }
        assert(sign_skip(s, i2 + 1) == j);
        assert forall|k: int| j <= k < s.len() implies is_digit(#[trigger] s[k]) by {
            assert(ex[k - i2] == exp_digits[k - j]);
            assert(s[i2 + (k - i2)] == ex[k - i2]);
        }
        lemma_digit_run(s, j, exp_digits.len() as int);
    } else {
        assert(s.len() == i2);
    }
}

pub proof fn lemma_digits_bounds(s: Seq<u8>, i: int)
    requires
        0 <= i <= s.len(),
    ensures
        i <= digits_end(s, i) <= s.len(),
    decreases s.len() - i,
{
    if i < s.len() {
        lemma_digits_bounds(s, i + 1);
    }
}

fn exec_digits_end(s: &Vec<u8>, i: usize) -> (r: usize)
    requires
        i <= s@.len(),
    ensures
        r == digits_end(s@, i as int),
        i <= r <= s@.len(),
{
    let mut k = i;
    while k < s.len() && s[k] >= 48 && s[k] <= 57
        invariant
            i <= k <= s@.len(),
            digits_end(s@, i as int) == digits_end(s@, k as int),
        decreases s@.len() - k,
    {
        k = k + 1;
    }
    k
}

fn exec_sign_skip(s: &Vec<u8>, i: usize) -> (r: usize)
    requires
        i <= s@.len(),
    ensures
        r == sign_skip(s@, i as int),
        i <= r <= s@.len(),
{
    if i < s.len() && (s[i] == 43 || s[i] == 45) {
        i + 1
    } else {
        i
    }
}

/// Whether `s` spells a number.
pub fn is_valid_number(s: &Vec<u8>) -> (r: bool)
    ensures
        r == valid_number(s@),
{
    let i0 = exec_sign_skip(s, 0);
    let i1 = exec_digits_end(s, i0);
    let has_point = i1 < s.len() && s[i1] == 46;
    let i2 = if has_point {
        exec_digits_end(s, i1 + 1)
    } else {
        i1
    };
    let int_digits = i1 - i0;
    let frac_digits = if has_point {
        i2 - i1 - 1
    } else {
        0
    };
    if int_digits + frac_digits == 0 {
        return false;
    }
    if i2 < s.len() && (s[i2] == 101 || s[i2] == 69) {
        let j = exec_sign_skip(s, i2 + 1);
        let e = exec_digits_end(s, j);
        e > j && e == s.len()
    } else {
        i2 == s.len()
    }
}

pub open spec fn word_player() -> Seq<u8> {
    seq![112u8, 108, 97, 121, 101, 114]
}

pub open spec fn word_sub() -> Seq<u8> {
    seq![115u8, 117, 98]
}

pub open spec fn word_box() -> Seq<u8> {
    seq![98u8, 111, 120]
}

pub open spec fn word_cylinder() -> Seq<u8> {
    seq![99u8, 121, 108, 105, 110, 100, 101, 114]
}

pub open spec fn word_sphere() -> Seq<u8> {
    seq![115u8, 112, 104, 101, 114, 101]
}

pub open spec fn word_cone() -> Seq<u8> {
    seq![99u8, 111, 110, 101]
}

pub open spec fn word_x() -> Seq<u8> {
    seq![120u8]
}

pub open spec fn word_y() -> Seq<u8> {
    seq![121u8]
}

pub open spec fn word_z() -> Seq<u8> {
    seq![122u8]
}

pub open spec fn word_s() -> Seq<u8> {
    seq![115u8]
}

pub open spec fn word_sx() -> Seq<u8> {
    seq![115u8, 120]
}

pub open spec fn word_sy() -> Seq<u8> {
    seq![115u8, 121]
}

pub open spec fn word_sz() -> Seq<u8> {
    seq![115u8, 122]
}

pub open spec fn word_ra() -> Seq<u8> {
    seq![114u8, 97]
}

pub open spec fn word_rx() -> Seq<u8> {
    seq![114u8, 120]
}

pub open spec fn word_ry() -> Seq<u8> {
    seq![114u8, 121]
}

pub open spec fn word_rz() -> Seq<u8> {
    seq![114u8, 122]
}

pub open spec fn word_mat() -> Seq<u8> {
    seq![109u8, 97, 116]
}

/// Attribute names by index: x y z s sx sy sz ra rx ry rz mat.
pub open spec fn attr_word(k: int) -> Seq<u8> {
    if k == 0 {
        word_x()
    } else if k == 1 {
        word_y()
    } else if k == 2 {
        word_z()
    } else if k == 3 {
        word_s()
    } else if k == 4 {
        word_sx()
    } else if k == 5 {
        word_sy()
    } else if k == 6 {
        word_sz()
    } else if k == 7 {
        word_ra()
    } else if k == 8 {
        word_rx()
    } else if k == 9 {
        word_ry()
    } else if k == 10 {
        word_rz()
    } else {
        word_mat()
    }
}

/// Index of the mat attribute.
pub open spec fn attr_mat() -> int {
    11
}

/// Number of attribute names; also the index of an unknown name.
pub open spec fn attr_unknown() -> int {
    12
}

/// Index of the first attribute name at or after `k` that equals `w`, or 12.
pub open spec fn attr_index_from(w: Seq<u8>, k: int) -> int
    decreases 12 - k,
{
    if k >= 12 {
        12
    } else if w == attr_word(k) {
        k
    } else {
        attr_index_from(w, k + 1)
    }
}

/// Index of an attribute name: x y z s sx sy sz ra rx ry rz are 0 to 10, mat is 11, others 12.
pub open spec fn attr_index(w: Seq<u8>) -> int {
    attr_index_from(w, 0)
}

/// Shape names by index: box, cylinder, sphere, cone.
pub open spec fn shape_word(k: int) -> Seq<u8> {
    if k == 0 {
        word_box()
    } else if k == 1 {
        word_cylinder()
    } else if k == 2 {
        word_sphere()
    } else {
        word_cone()
    }
}

pub open spec fn shape_index_from(w: Seq<u8>, k: int) -> int
    decreases 4 - k,
{
    if k >= 4 {
        4
    } else if w == shape_word(k) {
        k
    } else {
        shape_index_from(w, k + 1)
    }
}

/// Index of a shape name: box, cylinder, sphere, cone are 0 to 3, others 4.
pub open spec fn shape_index(w: Seq<u8>) -> int {
    shape_index_from(w, 0)
}

fn attr_word_bytes(k: u32) -> (w: Vec<u8>)
    requires
        k < 12,
    ensures
        w@ == attr_word(k as int),
{
    let w = if k == 0 {
        vec![120u8]
    } else if k == 1 {
        vec![121u8]
    } else if k == 2 {
        vec![122u8]
    } else if k == 3 {
        vec![115u8]
    } else if k == 4 {
        vec![115u8, 120]
    } else if k == 5 {
        vec![115u8, 121]
    } else if k == 6 {
        vec![115u8, 122]
    } else if k == 7 {
        vec![114u8, 97]
    } else if k == 8 {
        vec![114u8, 120]
    } else if k == 9 {
        vec![114u8, 121]
    } else if k == 10 {
        vec![114u8, 122]
    } else {
        vec![109u8, 97, 116]
    };
    assert(w@ =~= attr_word(k as int));
    w
}

fn shape_word_bytes(k: u32) -> (w: Vec<u8>)
    requires
        k < 4,
    ensures
        w@ == shape_word(k as int),
{
    let w = if k == 0 {
        vec![98u8, 111, 120]
    } else if k == 1 {
        vec![99u8, 121, 108, 105, 110, 100, 101, 114]
    } else if k == 2 {
        vec![115u8, 112, 104, 101, 114, 101]
    } else {
        vec![99u8, 111, 110, 101]
    };
    assert(w@ =~= shape_word(k as int));
    w
}

fn player_bytes() -> (w: Vec<u8>)
    ensures
        w@ == word_player(),
{
    let w = vec![112u8, 108, 97, 121, 101, 114];
    assert(w@ =~= word_player());
    w
}

fn sub_bytes() -> (w: Vec<u8>)
    ensures
        w@ == word_sub(),
{
    let w = vec![115u8, 117, 98];
    assert(w@ =~= word_sub());
    w
}

/// Whether the text in span `s` is the word `w`.
fn span_is(t: &[u8], s: Span, w: &[u8]) -> (r: bool)
    requires
        s.start <= s.end <= t@.len(),
    ensures
        r == (content(t@, s) == w@),
{
    if s.end - s.start != w.len() {
        return false;
    }
    let mut j: usize = 0;
    while j < w.len()
        invariant
            0 <= j <= w@.len(),
            s.start <= s.end <= t@.len(),
            s.end - s.start == w@.len(),
            forall|m: int| 0 <= m < j ==> t@[s.start + m] == w@[m],
        decreases w@.len() - j,
    {
        if t[s.start + j] != w[j] {
            assert(content(t@, s)[j as int] != w@[j as int]);
            return false;
        }
        j = j + 1;
    }
    assert(content(t@, s) =~= w@);
    true
}

/// Index of the attribute named by the text in span `s`.
fn attr_of(t: &[u8], s: Span) -> (r: u32)
    requires
        s.start <= s.end <= t@.len(),
    ensures
        r == attr_index(content(t@, s)),
{
    let mut k: u32 = 0;
    while k < 12
        invariant
            0 <= k <= 12,
            s.start <= s.end <= t@.len(),
            attr_index(content(t@, s)) == attr_index_from(content(t@, s), k as int),
        decreases 12 - k,
    {
        let w = attr_word_bytes(k);
        if span_is(t, s, w.as_slice()) {
            return k;
        }
        k = k + 1;
    }
    12
}

/// Index of the shape named by the text in span `s`.
fn shape_of(t: &[u8], s: Span) -> (r: u32)
    requires
        s.start <= s.end <= t@.len(),
    ensures
        r == shape_index(content(t@, s)),
{
    let mut k: u32 = 0;
    while k < 4
        invariant
            0 <= k <= 4,
            s.start <= s.end <= t@.len(),
            shape_index(content(t@, s)) == shape_index_from(content(t@, s), k as int),
        decreases 4 - k,
    {
        let w = shape_word_bytes(k);
        if span_is(t, s, w.as_slice()) {
            return k;
        }
        k = k + 1;
    }
    4
}

// ---------------------------------------------------------------------
// Parse results
// ---------------------------------------------------------------------

/// What went wrong while parsing a map.
#[derive(Clone, Copy, Debug, PartialEq, Eq, Structural)]
pub enum ParseErrorKind {
    /// A `(`, `)` or `=` was expected.
    ExpectedToken,
    /// A name was expected.
    ExpectedIdent,
    /// A number was expected.
    ExpectedNumber,
    /// A quoted string was expected (for `mat=`).
    ExpectedString,
    /// A quoted string was not closed.
    UnterminatedString,
    /// The entry names no known shape.
    UnknownShape,
    /// The brush attribute is unknown.
    UnknownAttribute,
    /// The player attribute is unknown.
    UnknownPlayerAttribute,
}

/// A parse error and the position in the text where it was found.
#[derive(Clone, Copy, Debug, PartialEq, Eq, Structural)]
pub struct ParseError {
    pub pos: usize,
    pub kind: ParseErrorKind,
}

/// The attributes of a brush entry, as spans of the text; `None` where the
/// attribute was not given.
#[derive(Clone, Copy, Debug, PartialEq, Eq, Structural)]
pub struct BrushFields {
    /// The entry was wrapped in `(sub ...)`.
    pub sub: bool,
    /// Index of the shape: box, cylinder, sphere, cone.
    pub kind: u32,
    pub x: Option<Span>,
    pub y: Option<Span>,
    pub z: Option<Span>,
    pub s: Option<Span>,
    pub sx: Option<Span>,
    pub sy: Option<Span>,
    pub sz: Option<Span>,
    pub ra: Option<Span>,
    pub rx: Option<Span>,
    pub ry: Option<Span>,
    pub rz: Option<Span>,
    /// The material name, without its quotes.
    pub mat: Option<Span>,
}

/// The attributes of a player entry.
#[derive(Clone, Copy, Debug, PartialEq, Eq, Structural)]
pub struct PlayerFields {
    pub x: Option<Span>,
    pub y: Option<Span>,
    pub z: Option<Span>,
    pub ra: Option<Span>,
}

#[derive(Clone, Copy, Debug, PartialEq, Eq, Structural)]
pub enum MapEntry {
    Player(PlayerFields),
    Brush(BrushFields),
}

/// An entry of the map and, for a brush entry after the first entry, the
/// text between it and the previous entry.
#[derive(Clone, Copy, Debug, PartialEq, Eq, Structural)]
pub struct MapItem {
    pub comment: Option<Span>,
    pub entry: MapEntry,
}

/// A parsed map: the text before its first entry, and its entries.
#[derive(Debug)]
pub struct MapDoc {
    pub header: Span,
    pub items: Vec<MapItem>,
}

pub open spec fn default_fields(kind: int) -> BrushFields {
    BrushFields {
        sub: false,
        kind: kind as u32,
        x: None,
        y: None,
        z: None,
        s: None,
        sx: None,
        sy: None,
        sz: None,
        ra: None,
        rx: None,
        ry: None,
        rz: None,
        mat: None,
    }
}

pub open spec fn empty_player() -> PlayerFields {
    PlayerFields { x: None, y: None, z: None, ra: None }
}

pub open spec fn err(pos: int, kind: ParseErrorKind) -> ParseError {
    ParseError { pos: pos as usize, kind }
}

/// Expect the one-byte token `c` after trivia; the position after it.
pub open spec fn tok_expect(t: Seq<u8>, p: int, c: u8) -> Result<int, ParseError> {
    let q = ws_end(t, p);
    if 0 <= q < t.len() && t[q] == c {
        Ok(q + 1)
    } else {
        Err(err(q, ParseErrorKind::ExpectedToken))
    }
}

/// A name after trivia: a letter or `_`, then letters, digits and `_`.
pub open spec fn tok_ident(t: Seq<u8>, p: int) -> Result<(Span, int), ParseError> {
    let q = ws_end(t, p);
    if 0 <= q < t.len() && is_alpha(t[q]) {
        let e = ident_end(t, q + 1);
        Ok((Span { start: q as usize, end: e as usize }, e))
    } else {
        Err(err(q, ParseErrorKind::ExpectedIdent))
    }
}

/// A number after trivia.
pub open spec fn tok_number(t: Seq<u8>, p: int) -> Result<(Span, int), ParseError> {
    let q = ws_end(t, p);
    let e = num_end(t, q);
    if valid_number(t.subrange(q, e)) {
        Ok((Span { start: q as usize, end: e as usize }, e))
    } else {
        Err(err(q, ParseErrorKind::ExpectedNumber))
    }
}

/// A string quoted by the byte at `q`.
pub open spec fn tok_string(t: Seq<u8>, q: int) -> Result<(Span, int), ParseError> {
    let close = find_byte(t, q + 1, t[q]);
    if close < t.len() {
        Ok((Span { start: (q + 1) as usize, end: close as usize }, close + 1))
    } else {
        Err(err(q, ParseErrorKind::UnterminatedString))
    }
}

/// The keyword `player` after trivia, as a whole word; the position after it.
pub open spec fn tok_player(t: Seq<u8>, p: int) -> Option<int> {
    let q = ws_end(t, p);
    if 0 <= q && q + 6 <= t.len() && t.subrange(q, q + 6) == word_player() && (q + 6 == t.len()
        || !is_ident_char(t[q + 6])) {
        Some(q + 6)
    } else {
        None
    }
}

pub proof fn lemma_tok_bounds(t: Seq<u8>, p: int, c: u8)
    requires
        0 <= p <= t.len(),
        t.len() <= usize::MAX,
    ensures
        p <= ws_end(t, p) <= t.len(),
        tok_expect(t, p, c) matches Ok(k) ==> p < k <= t.len(),
        tok_ident(t, p) matches Ok((s, k)) ==> p <= s.start < s.end == k <= t.len(),
        tok_number(t, p) matches Ok((s, k)) ==> p <= s.start <= s.end == k <= t.len(),
        tok_player(t, p) matches Some(k) ==> p < k <= t.len(),
{
    lemma_ws_bounds(t, p);
    let q = ws_end(t, p);
    if q < t.len() {
        lemma_ident_bounds(t, q + 1);
    }
    lemma_num_bounds(t, q);
}

pub proof fn lemma_string_bounds(t: Seq<u8>, q: int)
    requires
        0 <= q < t.len(),
        t.len() <= usize::MAX,
    ensures
        tok_string(t, q) matches Ok((s, k)) ==> q < s.start <= s.end < k <= t.len() && t[s.end as int] == t[q],
{
    lemma_find_bounds(t, q + 1, t[q]);
}

/// Set the number attribute `k` (0..11) of brush fields.
pub open spec fn with_num(f: BrushFields, k: int, v: Span) -> BrushFields {
    if k == 0 {
        BrushFields { x: Some(v), ..f }
    } else if k == 1 {
        BrushFields { y: Some(v), ..f }
    } else if k == 2 {
        BrushFields { z: Some(v), ..f }
    } else if k == 3 {
        BrushFields { s: Some(v), ..f }
    } else if k == 4 {
        BrushFields { sx: Some(v), ..f }
    } else if k == 5 {
        BrushFields { sy: Some(v), ..f }
    } else if k == 6 {
        BrushFields { sz: Some(v), ..f }
    } else if k == 7 {
        BrushFields { ra: Some(v), ..f }
    } else if k == 8 {
        BrushFields { rx: Some(v), ..f }
    } else if k == 9 {
        BrushFields { ry: Some(v), ..f }
    } else if k == 10 {
        BrushFields { rz: Some(v), ..f }
    } else {
        f
    }
}

/// Set the player attribute of brush attribute index `k` (x, y, z or ra).
pub open spec fn with_player_num(f: PlayerFields, k: int, v: Span) -> PlayerFields {
    if k == 0 {
        PlayerFields { x: Some(v), ..f }
    } else if k == 1 {
        PlayerFields { y: Some(v), ..f }
    } else if k == 2 {
        PlayerFields { z: Some(v), ..f }
    } else {
        PlayerFields { ra: Some(v), ..f }
    }
}

/// The player attributes are x, y, z and ra.
pub open spec fn is_player_attr(k: int) -> bool {
    k == 0 || k == 1 || k == 2 || k == 7
}

pub open spec fn pos_ok(t: Seq<u8>, p: int) -> bool {
    0 <= p <= t.len() && t.len() <= usize::MAX
}

/// Attributes of a brush entry up to and including its `)`, starting at `p`
/// with the fields `f`; a later attribute overrides an earlier one.
pub open spec fn brush_attrs(t: Seq<u8>, p: int, f: BrushFields) -> Result<(BrushFields, int), ParseError>
    decreases t.len() - p,
{
    if !pos_ok(t, p) {
        Err(err(p, ParseErrorKind::ExpectedToken))
    } else {
        let q = ws_end(t, p);
        if q < t.len() && t[q] == 41 {
            Ok((f, q + 1))
        } else {
            match tok_ident(t, q) {
                Err(e) => Err(e),
                Ok((key, k1)) => match tok_expect(t, k1, 61) {
                    Err(e) => Err(e),
                    Ok(k2) => {
                        let a = attr_index(content(t, key));
                        if a == attr_mat() {
                            let q2 = ws_end(t, k2);
                            if q2 < t.len() && (t[q2] == 39 || t[q2] == 34) {
                                match tok_string(t, q2) {
                                    Err(e) => Err(e),
                                    Ok((v, k3)) => {
                                        proof {
                                            lemma_ws_bounds(t, p);
                                            lemma_tok_bounds(t, q, 61);
                                            lemma_tok_bounds(t, k1, 61);
                                            lemma_ws_bounds(t, k2);
                                            lemma_string_bounds(t, q2);
                                        }
                                        brush_attrs(t, k3, BrushFields { mat: Some(v), ..f })
                                    },
                                }
                            } else {
                                Err(err(q2, ParseErrorKind::ExpectedString))
                            }
                        } else if a < attr_mat() {
                            match tok_number(t, k2) {
                                Err(e) => Err(e),
                                Ok((v, k3)) => {
                                    proof {
                                        lemma_ws_bounds(t, p);
                                        lemma_tok_bounds(t, q, 61);
                                        lemma_tok_bounds(t, k1, 61);
                                        lemma_tok_bounds(t, k2, 61);
                                    }
                                    brush_attrs(t, k3, with_num(f, a, v))
                                },
                            }
                        } else {
                            Err(err(k2, ParseErrorKind::UnknownAttribute))
                        }
                    },
                },
            }
        }
    }
}

/// Attributes of a player entry up to and including its `)`.
pub open spec fn player_attrs(t: Seq<u8>, p: int, f: PlayerFields) -> Result<(PlayerFields, int), ParseError>
    decreases t.len() - p,
{
    if !pos_ok(t, p) {
        Err(err(p, ParseErrorKind::ExpectedToken))
    } else {
        let q = ws_end(t, p);
        if q < t.len() && t[q] == 41 {
            Ok((f, q + 1))
        } else {
            match tok_ident(t, q) {
                Err(e) => Err(e),
                Ok((key, k1)) => match tok_expect(t, k1, 61) {
                    Err(e) => Err(e),
                    Ok(k2) => {
                        let a = attr_index(content(t, key));
                        if is_player_attr(a) {
                            match tok_number(t, k2) {
                                Err(e) => Err(e),
                                Ok((v, k3)) => {
                                    proof {
                                        lemma_ws_bounds(t, p);
                                        lemma_tok_bounds(t, q, 61);
                                        lemma_tok_bounds(t, k1, 61);
                                        lemma_tok_bounds(t, k2, 61);
                                    }
                                    player_attrs(t, k3, with_player_num(f, a, v))
                                },
                            }
                        } else {
                            Err(err(k2, ParseErrorKind::UnknownPlayerAttribute))
                        }
                    },
                },
            }
        }
    }
}

/// A brush entry after its `(`: a shape with attributes, or `sub` around a
/// brush entry (which makes it subtract).
pub open spec fn brush_entry(t: Seq<u8>, p: int) -> Result<(BrushFields, int), ParseError>
    decreases t.len() - p,
{
    if !pos_ok(t, p) {
        Err(err(p, ParseErrorKind::ExpectedToken))
    } else {
        match tok_ident(t, p) {
            Err(e) => Err(e),
            Ok((kw, k1)) => if content(t, kw) == word_sub() {
                match tok_expect(t, k1, 40) {
                    Err(e) => Err(e),
                    Ok(k2) => {
                        proof {
                            lemma_tok_bounds(t, p, 40);
                            lemma_tok_bounds(t, k1, 40);
                        }
                        match brush_entry(t, k2) {
                            Err(e) => Err(e),
                            Ok((f, k3)) => match tok_expect(t, k3, 41) {
                                Err(e) => Err(e),
                                Ok(k4) => Ok((BrushFields { sub: true, ..f }, k4)),
                            },
                        }
                    },
                }
            } else {
                let sh = shape_index(content(t, kw));
                if sh < 4 {
                    brush_attrs(t, k1, default_fields(sh))
                } else {
                    Err(err(k1, ParseErrorKind::UnknownShape))
                }
            },
        }
    }
}

pub proof fn lemma_brush_attrs_bounds(t: Seq<u8>, p: int, f: BrushFields)
    ensures
        brush_attrs(t, p, f) matches Ok((g, k)) ==> p < k <= t.len() && g.sub == f.sub && g.kind
            == f.kind,
    decreases t.len() - p,
{
    if pos_ok(t, p) {
        let q = ws_end(t, p);
        lemma_ws_bounds(t, p);
        if !(q < t.len() && t[q] == 41) {
            lemma_tok_bounds(t, q, 61);
            if let Ok((key, k1)) = tok_ident(t, q) {
                lemma_tok_bounds(t, k1, 61);
                if let Ok(k2) = tok_expect(t, k1, 61) {
                    let a = attr_index(content(t, key));
                    lemma_tok_bounds(t, k2, 61);
                    lemma_ws_bounds(t, k2);
                    let q2 = ws_end(t, k2);
                    if a == attr_mat() {
                        if q2 < t.len() && (t[q2] == 39 || t[q2] == 34) {
                            lemma_string_bounds(t, q2);
                            if let Ok((v, k3)) = tok_string(t, q2) {
                                lemma_brush_attrs_bounds(t, k3, BrushFields { mat: Some(v), ..f });
                            }
                        }
                    } else if a < attr_mat() {
                        if let Ok((v, k3)) = tok_number(t, k2) {
                            lemma_brush_attrs_bounds(t, k3, with_num(f, a, v));
                        }
                    }
                }
            }
        }
    }
}

pub proof fn lemma_player_attrs_bounds(t: Seq<u8>, p: int, f: PlayerFields)
    ensures
        player_attrs(t, p, f) matches Ok((g, k)) ==> p < k <= t.len(),
    decreases t.len() - p,
{
    if pos_ok(t, p) {
        let q = ws_end(t, p);
        lemma_ws_bounds(t, p);
        if !(q < t.len() && t[q] == 41) {
            lemma_tok_bounds(t, q, 61);
            if let Ok((key, k1)) = tok_ident(t, q) {
                lemma_tok_bounds(t, k1, 61);
                if let Ok(k2) = tok_expect(t, k1, 61) {
                    let a = attr_index(content(t, key));
                    lemma_tok_bounds(t, k2, 61);
                    if is_player_attr(a) {
                        if let Ok((v, k3)) = tok_number(t, k2) {
                            lemma_player_attrs_bounds(t, k3, with_player_num(f, a, v));
                        }
                    }
                }
            }
        }
    }
}

pub proof fn lemma_index_ranges(w: Seq<u8>)
    ensures
        0 <= shape_index(w) <= 4,
        0 <= attr_index(w) <= 12,
{
    reveal_with_fuel(shape_index_from, 5);
    reveal_with_fuel(attr_index_from, 13);
}

pub proof fn lemma_brush_entry_bounds(t: Seq<u8>, p: int)
    ensures
        brush_entry(t, p) matches Ok((g, k)) ==> p < k <= t.len() && g.kind < 4,
    decreases t.len() - p,
{
    if pos_ok(t, p) {
        lemma_tok_bounds(t, p, 40);
        if let Ok((kw, k1)) = tok_ident(t, p) {
            lemma_tok_bounds(t, k1, 40);
            if content(t, kw) == word_sub() {
                if let Ok(k2) = tok_expect(t, k1, 40) {
                    lemma_brush_entry_bounds(t, k2);
                    if let Ok((f, k3)) = brush_entry(t, k2) {
                        lemma_tok_bounds(t, k3, 41);
                    }
                }
            } else {
                let sh = shape_index(content(t, kw));
                lemma_index_ranges(content(t, kw));
                if sh < 4 {
                    lemma_brush_attrs_bounds(t, k1, default_fields(sh));
                }
            }
        }
    }
}

/// The entries of a map from `p` on, after the entries `acc` and the header
/// found so far (`None` before the first entry).
pub open spec fn map_items(t: Seq<u8>, p: int, header: Option<Span>, acc: Seq<MapItem>) -> Result<(Span, Seq<MapItem>), ParseError>
    decreases t.len() - p,
{
    if !pos_ok(t, p) {
        Err(err(p, ParseErrorKind::ExpectedToken))
    } else {
        let q = ws_end(t, p);
        if q >= t.len() {
            // Trailing whitespace and comments after the last entry are dropped
            Ok(
                (
                    match header {
                        Some(h) => h,
                        None => Span { start: 0, end: 0 },
                    },
                    acc,
                ),
            )
        } else {
            let leading = Span { start: p as usize, end: q as usize };
            let new_header = match header {
                Some(h) => h,
                None => leading,
            };
            match tok_expect(t, q, 40) {
                Err(e) => Err(e),
                Ok(k1) => match tok_player(t, k1) {
                    Some(k2) => match player_attrs(t, k2, empty_player()) {
                        Err(e) => Err(e),
                        Ok((pf, k3)) => {
                            proof {
                                lemma_ws_bounds(t, p);
                                lemma_tok_bounds(t, q, 40);
                                lemma_tok_bounds(t, k1, 40);
                                lemma_player_attrs_bounds(t, k2, empty_player());
                            }
                            map_items(
                                t,
                                k3,
                                Some(new_header),
                                acc.push(MapItem { comment: None, entry: MapEntry::Player(pf) }),
                            )
                        },
                    },
                    None => match brush_entry(t, k1) {
                        Err(e) => Err(e),
                        Ok((bf, k3)) => {
                            proof {
                                lemma_ws_bounds(t, p);
                                lemma_tok_bounds(t, q, 40);
                                lemma_brush_entry_bounds(t, k1);
                            }
                            map_items(
                                t,
                                k3,
                                Some(new_header),
                                acc.push(
                                    MapItem {
                                        comment: if header is Some {
                                            Some(leading)
                                        } else {
                                            None
                                        },
                                        entry: MapEntry::Brush(bf),
                                    },
                                ),
                            )
                        },
                    },
                },
            }
        }
    }
}

/// The parse of a whole map text.
pub open spec fn parse_map_spec(t: Seq<u8>) -> Result<(Span, Seq<MapItem>), ParseError> {
    map_items(t, 0, None, Seq::empty())
}

// ---------------------------------------------------------------------
// The parser
// ---------------------------------------------------------------------

pub open spec fn lift(r: Result<usize, ParseError>) -> Result<int, ParseError> {
    match r {
        Ok(k) => Ok(k as int),
        Err(e) => Err(e),
    }
}

pub open spec fn lift_pair<A>(r: Result<(A, usize), ParseError>) -> Result<(A, int), ParseError> {
    match r {
        Ok((a, k)) => Ok((a, k as int)),
        Err(e) => Err(e),
    }
}

/// A slice's length fits in `usize`.
proof fn lemma_text_len(t: &[u8])
    ensures
        t@.len() <= usize::MAX,
{
    assert(t@.len() == t.len());
}

fn ws_byte(c: u8) -> (r: bool)
    ensures
        r == is_ws(c),
{
    c == 32 || c == 9 || c == 10 || c == 13
}

fn alpha_byte(c: u8) -> (r: bool)
    ensures
        r == is_alpha(c),
{
    (65 <= c && c <= 90) || (97 <= c && c <= 122) || c == 95
}

fn ident_byte(c: u8) -> (r: bool)
    ensures
        r == is_ident_char(c),
{
    alpha_byte(c) || (48 <= c && c <= 57)
}

fn num_byte(c: u8) -> (r: bool)
    ensures
        r == is_num_char(c),
{
    (48 <= c && c <= 57) || c == 43 || c == 45 || c == 46 || c == 101 || c == 69
}

/// Skip whitespace and `#` comments.
fn skip_ws(t: &[u8], p: usize) -> (r: usize)
    requires
        p <= t@.len(),
    ensures
        r == ws_end(t@, p as int),
        p <= r <= t@.len(),
{
    let mut i = p;
    let mut in_comment = false;
    while i < t.len() && (in_comment || ws_byte(t[i]) || t[i] == 35)
        invariant
            p <= i <= t@.len(),
            ws_end(t@, p as int) == if in_comment {
                comment_end(t@, i as int)
            } else {
                ws_end(t@, i as int)
            },
        decreases t@.len() - i,
    {
        if in_comment {
            if t[i] == 10 {
                in_comment = false;
            }
        } else if t[i] == 35 {
            in_comment = true;
        }
        i = i + 1;
    }
    i
}

fn scan_ident(t: &[u8], p: usize) -> (r: usize)
    requires
        p <= t@.len(),
    ensures
        r == ident_end(t@, p as int),
        p <= r <= t@.len(),
{
    let mut i = p;
    while i < t.len() && ident_byte(t[i])
        invariant
            p <= i <= t@.len(),
            ident_end(t@, p as int) == ident_end(t@, i as int),
        decreases t@.len() - i,
    {
        i = i + 1;
    }
    i
}

fn scan_num(t: &[u8], p: usize) -> (r: usize)
    requires
        p <= t@.len(),
    ensures
        r == num_end(t@, p as int),
        p <= r <= t@.len(),
{
    let mut i = p;
    while i < t.len() && num_byte(t[i])
        invariant
            p <= i <= t@.len(),
            num_end(t@, p as int) == num_end(t@, i as int),
        decreases t@.len() - i,
    {
        i = i + 1;
    }
    i
}

fn scan_to(t: &[u8], p: usize, c: u8) -> (r: usize)
    requires
        p <= t@.len(),
    ensures
        r == find_byte(t@, p as int, c),
        p <= r <= t@.len(),
{
    let mut i = p;
    while i < t.len() && t[i] != c
        invariant
            p <= i <= t@.len(),
            find_byte(t@, p as int, c) == find_byte(t@, i as int, c),
        decreases t@.len() - i,
    {
        i = i + 1;
    }
    i
}

/// Expect the one-byte token `c`.
fn expect_tok(t: &[u8], p: usize, c: u8) -> (r: Result<usize, ParseError>)
    requires
        p <= t@.len(),
    ensures
        lift(r) == tok_expect(t@, p as int, c),
{
    let q = skip_ws(t, p);
    if q < t.len() && t[q] == c {
        Ok(q + 1)
    } else {
        Err(ParseError { pos: q, kind: ParseErrorKind::ExpectedToken })
    }
}

/// Read a name.
fn parse_ident(t: &[u8], p: usize) -> (r: Result<(Span, usize), ParseError>)
    requires
        p <= t@.len(),
    ensures
        lift_pair(r) == tok_ident(t@, p as int),
{
    let q = skip_ws(t, p);
    if q < t.len() && alpha_byte(t[q]) {
        let e = scan_ident(t, q + 1);
        Ok((Span { start: q, end: e }, e))
    } else {
        Err(ParseError { pos: q, kind: ParseErrorKind::ExpectedIdent })
    }
}

/// Read a number.
fn parse_number(t: &[u8], p: usize) -> (r: Result<(Span, usize), ParseError>)
    requires
        p <= t@.len(),
    ensures
        lift_pair(r) == tok_number(t@, p as int),
{
    let q = skip_ws(t, p);
    let e = scan_num(t, q);
    let mut lexeme: Vec<u8> = Vec::new();
    let mut i = q;
    while i < e
        invariant
            q <= i <= e <= t@.len(),
            lexeme@ == t@.subrange(q as int, i as int),
        decreases e - i,
    {
        lexeme.push(t[i]);
        i = i + 1;
    }
    if is_valid_number(&lexeme) {
        Ok((Span { start: q, end: e }, e))
    } else {
        Err(ParseError { pos: q, kind: ParseErrorKind::ExpectedNumber })
    }
}

/// Read a string quoted by the byte at `q`.
fn parse_string(t: &[u8], q: usize) -> (r: Result<(Span, usize), ParseError>)
    requires
        q < t@.len(),
    ensures
        lift_pair(r) == tok_string(t@, q as int),
{
    proof {
        lemma_text_len(t);
    }
    let close = scan_to(t, q + 1, t[q]);
    if close < t.len() {
        Ok((Span { start: q + 1, end: close }, close + 1))
    } else {
        Err(ParseError { pos: q, kind: ParseErrorKind::UnterminatedString })
    }
}

/// Match the keyword `player`.
fn match_player(t: &[u8], p: usize) -> (r: Option<usize>)
    requires
        p <= t@.len(),
    ensures
        match r {
            Some(k) => tok_player(t@, p as int) == Some(k as int),
            None => tok_player(t@, p as int) is None,
        },
{
    let q = skip_ws(t, p);
    if t.len() >= 6 && q <= t.len() - 6 {
        let word = player_bytes();
        if span_is(t, Span { start: q, end: q + 6 }, word.as_slice()) {
            if q + 6 == t.len() || !ident_byte(t[q + 6]) {
                return Some(q + 6);
            }
        }
    }
    None
}

fn set_num(f: &mut BrushFields, k: u32, v: Span)
    requires
        k < 11,
    ensures
        *final(f) == with_num(*old(f), k as int, v),
{
    if k == 0 {
        f.x = Some(v);
    } else if k == 1 {
        f.y = Some(v);
    } else if k == 2 {
        f.z = Some(v);
    } else if k == 3 {
        f.s = Some(v);
    } else if k == 4 {
        f.sx = Some(v);
    } else if k == 5 {
        f.sy = Some(v);
    } else if k == 6 {
        f.sz = Some(v);
    } else if k == 7 {
        f.ra = Some(v);
    } else if k == 8 {
        f.rx = Some(v);
    } else if k == 9 {
        f.ry = Some(v);
    } else if k == 10 {
        f.rz = Some(v);
    }
}

fn set_player_num(f: &mut PlayerFields, k: u32, v: Span)
    ensures
        *final(f) == with_player_num(*old(f), k as int, v),
{
    if k == 0 {
        f.x = Some(v);
    } else if k == 1 {
        f.y = Some(v);
    } else if k == 2 {
        f.z = Some(v);
    } else {
        f.ra = Some(v);
    }
}

/// Read the attributes of a brush entry, up to and including its `)`.
fn parse_brush_attrs(t: &[u8], p: usize, f: BrushFields) -> (r: Result<(BrushFields, usize), ParseError>)
    requires
        p <= t@.len(),
    ensures
        lift_pair(r) == brush_attrs(t@, p as int, f),
{
    proof {
        lemma_text_len(t);
    }
    let mut cur = p;
    let mut fields = f;
    loop
        invariant
            cur <= t@.len(),
            t@.len() <= usize::MAX,
            brush_attrs(t@, cur as int, fields) == brush_attrs(t@, p as int, f),
        decreases t@.len() - cur,
    {
        let q = skip_ws(t, cur);
        if q < t.len() && t[q] == 41 {
            return Ok((fields, q + 1));
        }
        let (key, k1) = match parse_ident(t, q) {
            Ok(v) => v,
            Err(e) => {
                return Err(e);
            },
        };
        proof {
            lemma_tok_bounds(t@, q as int, 61);
        }
        let k2 = match expect_tok(t, k1, 61) {
            Ok(v) => v,
            Err(e) => {
                return Err(e);
            },
        };
        proof {
            lemma_tok_bounds(t@, k1 as int, 61);
        }
        let a = attr_of(t, key);
        if a == 11 {
            let q2 = skip_ws(t, k2);
            if q2 < t.len() && (t[q2] == 39 || t[q2] == 34) {
                let (v, k3) = match parse_string(t, q2) {
                    Ok(v) => v,
                    Err(e) => {
                        return Err(e);
                    },
                };
                proof {
                    lemma_string_bounds(t@, q2 as int);
                }
                fields.mat = Some(v);
                cur = k3;
            } else {
                return Err(ParseError { pos: q2, kind: ParseErrorKind::ExpectedString });
            }
        } else if a < 11 {
            let (v, k3) = match parse_number(t, k2) {
                Ok(v) => v,
                Err(e) => {
                    return Err(e);
                },
            };
            proof {
                lemma_tok_bounds(t@, k2 as int, 61);
            }
            set_num(&mut fields, a, v);
            cur = k3;
        } else {
            return Err(ParseError { pos: k2, kind: ParseErrorKind::UnknownAttribute });
        }
    }
}

/// Read the attributes of a player entry, up to and including its `)`.
fn parse_player_attrs(t: &[u8], p: usize, f: PlayerFields) -> (r: Result<(PlayerFields, usize), ParseError>)
    requires
        p <= t@.len(),
    ensures
        lift_pair(r) == player_attrs(t@, p as int, f),
{
    proof {
        lemma_text_len(t);
    }
    let mut cur = p;
    let mut fields = f;
    loop
        invariant
            cur <= t@.len(),
            t@.len() <= usize::MAX,
            player_attrs(t@, cur as int, fields) == player_attrs(t@, p as int, f),
        decreases t@.len() - cur,
    {
        let q = skip_ws(t, cur);
        if q < t.len() && t[q] == 41 {
            return Ok((fields, q + 1));
        }
        let (key, k1) = match parse_ident(t, q) {
            Ok(v) => v,
            Err(e) => {
                return Err(e);
            },
        };
        proof {
            lemma_tok_bounds(t@, q as int, 61);
        }
        let k2 = match expect_tok(t, k1, 61) {
            Ok(v) => v,
            Err(e) => {
                return Err(e);
            },
        };
        proof {
            lemma_tok_bounds(t@, k1 as int, 61);
        }
        let a = attr_of(t, key);
        if a == 0 || a == 1 || a == 2 || a == 7 {
            let (v, k3) = match parse_number(t, k2) {
                Ok(v) => v,
                Err(e) => {
                    return Err(e);
                },
            };
            proof {
                lemma_tok_bounds(t@, k2 as int, 61);
            }
            set_player_num(&mut fields, a, v);
            cur = k3;
        } else {
            return Err(ParseError { pos: k2, kind: ParseErrorKind::UnknownPlayerAttribute });
        }
    }
}

fn default_brush_fields(kind: u32) -> (f: BrushFields)
    ensures
        f == default_fields(kind as int),
{
    BrushFields {
        sub: false,
        kind: kind,
        x: None,
        y: None,
        z: None,
        s: None,
        sx: None,
        sy: None,
        sz: None,
        ra: None,
        rx: None,
        ry: None,
        rz: None,
        mat: None,
    }
}

/// Parse a brush entry. '(' must already be consumed by the caller.
fn parse_entry(t: &[u8], p: usize) -> (r: Result<(BrushFields, usize), ParseError>)
    requires
        p <= t@.len(),
    ensures
        lift_pair(r) == brush_entry(t@, p as int),
    decreases t@.len() - p,
{
    proof {
        lemma_text_len(t);
    }
    let (kw, k1) = match parse_ident(t, p) {
        Ok(v) => v,
        Err(e) => {
            return Err(e);
        },
    };
    proof {
        lemma_tok_bounds(t@, p as int, 40);
    }
    let sub = sub_bytes();
    if span_is(t, kw, sub.as_slice()) {
        let k2 = match expect_tok(t, k1, 40) {
            Ok(v) => v,
            Err(e) => {
                return Err(e);
            },
        };
        proof {
            lemma_tok_bounds(t@, k1 as int, 40);
        }
        let (f, k3) = match parse_entry(t, k2) {
            Ok(v) => v,
            Err(e) => {
                return Err(e);
            },
        };
        proof {
            lemma_brush_entry_bounds(t@, k2 as int);
        }
        let k4 = match expect_tok(t, k3, 41) {
            Ok(v) => v,
            Err(e) => {
                return Err(e);
            },
        };
        let mut g = f;
        g.sub = true;
        Ok((g, k4))
    } else {
        let sh = shape_of(t, kw);
        if sh < 4 {
            parse_brush_attrs(t, k1, default_brush_fields(sh))
        } else {
            Err(ParseError { pos: k1, kind: ParseErrorKind::UnknownShape })
        }
    }
}

/// Parse the text of a map file.
pub fn parse_map_text(t: &[u8]) -> (r: Result<MapDoc, ParseError>)
    ensures
        match r {
            Ok(d) => parse_map_spec(t@) == Ok::<(Span, Seq<MapItem>), ParseError>((d.header, d.items@)),
            Err(e) => parse_map_spec(t@) == Err::<(Span, Seq<MapItem>), ParseError>(e),
        },
{
    proof {
        lemma_text_len(t);
    }
    let mut items: Vec<MapItem> = Vec::new();
    let mut header: Option<Span> = None;
    let mut prev_end: usize = 0;
    loop
        invariant
            prev_end <= t@.len(),
            map_items(t@, prev_end as int, header, items@) == parse_map_spec(t@),
        decreases t@.len() - prev_end,
    {
        let q = skip_ws(t, prev_end);
        if q >= t.len() {
            // Trailing whitespace and comments after the last entry are dropped
            let h = match header {
                Some(h) => h,
                None => Span { start: 0, end: 0 },
            };
            return Ok(MapDoc { header: h, items });
        }
        let leading = Span { start: prev_end, end: q };
        let k1 = match expect_tok(t, q, 40) {
            Ok(v) => v,
            Err(e) => {
                return Err(e);
            },
        };
        proof {
            lemma_tok_bounds(t@, q as int, 40);
        }
        let new_header = match header {
            Some(h) => h,
            None => leading,
        };
        match match_player(t, k1) {
            Some(k2) => {
                proof {
                    lemma_tok_bounds(t@, k1 as int, 40);
                }
                let empty = PlayerFields { x: None, y: None, z: None, ra: None };
                let (pf, k3) = match parse_player_attrs(t, k2, empty) {
                    Ok(v) => v,
                    Err(e) => {
                        return Err(e);
                    },
                };
                proof {
                    lemma_player_attrs_bounds(t@, k2 as int, empty_player());
                }
                items.push(MapItem { comment: None, entry: MapEntry::Player(pf) });
                header = Some(new_header);
                prev_end = k3;
            },
            None => {
                let (bf, k3) = match parse_entry(t, k1) {
                    Ok(v) => v,
                    Err(e) => {
                        return Err(e);
                    },
                };
                proof {
                    lemma_brush_entry_bounds(t@, k1 as int);
                }
                let comment = match header {
                    Some(_) => Some(leading),
                    None => None,
                };
                items.push(MapItem { comment, entry: MapEntry::Brush(bf) });
                header = Some(new_header);
                prev_end = k3;
            },
        }
    }
}

// ---------------------------------------------------------------------
// Writing maps
// ---------------------------------------------------------------------

/// The text of a player entry: its numbers, already spelled.
#[derive(Debug)]
pub struct PlayerText {
    pub x: Vec<u8>,
    pub y: Vec<u8>,
    pub z: Vec<u8>,
    pub ra: Vec<u8>,
}

/// The axis of a rotation, spelled.
#[derive(Debug)]
pub struct AxisText {
    pub x: Vec<u8>,
    pub y: Vec<u8>,
    pub z: Vec<u8>,
}

/// A rotation: its angle in degrees and, unless it turns about the Y axis,
/// its axis.
#[derive(Debug)]
pub struct RotationText {
    pub ra: Vec<u8>,
    pub axis: Option<AxisText>,
}

/// The text of a brush entry: its fields, already spelled.
#[derive(Debug)]
pub struct BrushText {
    /// The brush subtracts from the world.
    pub sub: bool,
    /// Index of the shape: box, cylinder, sphere, cone.
    pub kind: u32,
    pub x: Vec<u8>,
    pub y: Vec<u8>,
    pub z: Vec<u8>,
    pub sx: Vec<u8>,
    pub sy: Vec<u8>,
    pub sz: Vec<u8>,
    /// `None` for a brush that is not rotated.
    pub rotation: Option<RotationText>,
    /// The material name.
    pub mat: Vec<u8>,
}

/// ` name=value` for the attribute of index `k`.
pub open spec fn attr_text(k: int, v: Seq<u8>) -> Seq<u8> {
    seq![32u8] + attr_word(k) + seq![61u8] + v
}

/// The name a brush kind is written with; an unknown kind is written as a box.
pub open spec fn kind_name(kind: u32) -> Seq<u8> {
    if kind < 4 {
        shape_word(kind as int)
    } else {
        word_box()
    }
}

pub open spec fn player_text(p: PlayerText) -> Seq<u8> {
    seq![40u8] + word_player() + attr_text(0, p.x@) + attr_text(1, p.y@) + attr_text(2, p.z@)
        + attr_text(7, p.ra@) + seq![41u8]
}

pub open spec fn rotation_text(r: Option<RotationText>) -> Seq<u8> {
    match r {
        None => Seq::empty(),
        Some(rt) => attr_text(7, rt.ra@) + match rt.axis {
            None => Seq::empty(),
            Some(a) => attr_text(8, a.x@) + attr_text(9, a.y@) + attr_text(10, a.z@),
        },
    }
}

/// The body of a brush entry, `(kind ... mat='name')`.
pub open spec fn shape_text(b: BrushText) -> Seq<u8> {
    seq![40u8] + kind_name(b.kind) + attr_text(0, b.x@) + attr_text(1, b.y@) + attr_text(2, b.z@)
        + attr_text(4, b.sx@) + attr_text(5, b.sy@) + attr_text(6, b.sz@) + rotation_text(
        b.rotation,
    ) + attr_text(11, seq![39u8] + b.mat@ + seq![39u8]) + seq![41u8]
}

/// A brush entry, wrapped in `(sub ...)` when it subtracts.
pub open spec fn brush_text(b: BrushText) -> Seq<u8> {
    if b.sub {
        seq![40u8] + word_sub() + seq![32u8] + shape_text(b) + seq![41u8]
    } else {
        shape_text(b)
    }
}

fn append(out: &mut Vec<u8>, s: &[u8])
    ensures
        final(out)@ == old(out)@ + s@,
{
    let ghost start = out@;
    let mut i: usize = 0;
    while i < s.len()
        invariant
            0 <= i <= s@.len(),
            out@ == start + s@.subrange(0, i as int),
        decreases s@.len() - i,
    {
        out.push(s[i]);
        i = i + 1;
        assert(out@ =~= start + s@.subrange(0, i as int));
    }
    assert(s@.subrange(0, s@.len() as int) =~= s@);
}

fn push_byte(out: &mut Vec<u8>, c: u8)
    ensures
        final(out)@ == old(out)@ + seq![c],
{
    out.push(c);
    assert(out@ =~= old(out)@ + seq![c]);
}

fn push_attr(out: &mut Vec<u8>, k: u32, v: &[u8])
    requires
        k < 12,
    ensures
        final(out)@ == old(out)@ + attr_text(k as int, v@),
{
    let ghost start = out@;
    push_byte(out, 32);
    let w = attr_word_bytes(k);
    append(out, w.as_slice());
    push_byte(out, 61);
    append(out, v);
    assert(out@ =~= start + attr_text(k as int, v@));
}

/// The text of a player entry.
pub fn serialize_player(p: &PlayerText) -> (r: Vec<u8>)
    ensures
        r@ == player_text(*p),
{
    let mut out: Vec<u8> = Vec::new();
    push_byte(&mut out, 40);
    let w = player_bytes();
    append(&mut out, w.as_slice());
    push_attr(&mut out, 0, p.x.as_slice());
    push_attr(&mut out, 1, p.y.as_slice());
    push_attr(&mut out, 2, p.z.as_slice());
    push_attr(&mut out, 7, p.ra.as_slice());
    push_byte(&mut out, 41);
    assert(out@ =~= player_text(*p));
    out
}

/// The text of a brush entry.
#[verifier::rlimit(30)]
pub fn serialize_brush(b: &BrushText) -> (r: Vec<u8>)
    ensures
        r@ == brush_text(*b),
{
    let mut out: Vec<u8> = Vec::new();
    if b.sub {
        push_byte(&mut out, 40);
        let w = sub_bytes();
        append(&mut out, w.as_slice());
        push_byte(&mut out, 32);
    }
    let ghost before = out@;
    push_byte(&mut out, 40);
    let kind = if b.kind < 4 {
        b.kind
    } else {
        0
    };
    let name = shape_word_bytes(kind);
    append(&mut out, name.as_slice());
    push_attr(&mut out, 0, b.x.as_slice());
    push_attr(&mut out, 1, b.y.as_slice());
    push_attr(&mut out, 2, b.z.as_slice());
    push_attr(&mut out, 4, b.sx.as_slice());
    push_attr(&mut out, 5, b.sy.as_slice());
    push_attr(&mut out, 6, b.sz.as_slice());
    let ghost before_rot = out@;
    match &b.rotation {
        None => {},
        Some(rt) => {
            push_attr(&mut out, 7, rt.ra.as_slice());
            match &rt.axis {
                None => {},
                Some(a) => {
                    push_attr(&mut out, 8, a.x.as_slice());
                    push_attr(&mut out, 9, a.y.as_slice());
                    push_attr(&mut out, 10, a.z.as_slice());
                },
            }
        },
    }
    assert(out@ =~= before_rot + rotation_text(b.rotation));
    let mut quoted: Vec<u8> = Vec::new();
    push_byte(&mut quoted, 39);
    append(&mut quoted, b.mat.as_slice());
    push_byte(&mut quoted, 39);
    push_attr(&mut out, 11, quoted.as_slice());
    push_byte(&mut out, 41);
    assert(out@ =~= before + shape_text(*b));
    if b.sub {
        push_byte(&mut out, 41);
    }
    assert(out@ =~= brush_text(*b));
    out
}

/// `s` followed by a newline, unless it already ends with one.
pub open spec fn ensure_newline(s: Seq<u8>) -> Seq<u8> {
    if s.len() > 0 && s.last() == 10 {
        s
    } else {
        s.push(10)
    }
}

/// `c` without one leading newline.
pub open spec fn strip_newline(c: Seq<u8>) -> Seq<u8> {
    if c.len() > 0 && c[0] == 10 {
        c.drop_first()
    } else {
        c
    }
}

/// `out` with one more brush entry: a newline before it unless `out` ends
/// with one, then the text kept from before the entry (without a leading
/// newline), then the entry.
pub open spec fn append_entry(out: Seq<u8>, comment: Option<Seq<u8>>, text: Seq<u8>) -> Seq<u8> {
    let o = ensure_newline(out);
    match comment {
        Some(c) => o + strip_newline(c) + text,
        None => o + text,
    }
}

/// `out` followed by the brush entries `texts` with their kept texts `comments`.
pub open spec fn saved_entries(out: Seq<u8>, comments: Seq<Option<Seq<u8>>>, texts: Seq<Seq<u8>>) -> Seq<u8>
    decreases texts.len(),
{
    if texts.len() == 0 {
        out
    } else {
        append_entry(
            saved_entries(out, comments.drop_last(), texts.drop_last()),
            comments.last(),
            texts.last(),
        )
    }
}

/// A saved map: the header, the player entry, the brush entries, and a
/// final newline unless the text already ends with one.
pub open spec fn saved_map(header: Seq<u8>, player: Seq<u8>, comments: Seq<Option<Seq<u8>>>, texts: Seq<Seq<u8>>) -> Seq<u8> {
    ensure_newline(saved_entries(header + player, comments, texts))
}

/// The kept texts of the brushes in use, in the order of their ids.
pub open spec fn world_comments(w: World) -> Seq<Option<Seq<u8>>> {
    Seq::new(
        w.active().len(),
        |i: int|
            if w.comments@.contains_key(w.active()[i]) {
                Some(w.comments@[w.active()[i]]@)
            } else {
                None
            },
    )
}

pub open spec fn brush_texts(bs: Seq<BrushText>) -> Seq<Seq<u8>> {
    Seq::new(bs.len(), |i: int| brush_text(bs[i]))
}

fn ends_with_newline(out: &Vec<u8>) -> (r: bool)
    ensures
        r == (out@.len() > 0 && out@.last() == 10),
{
    out.len() > 0 && out[out.len() - 1] == 10
}

fn push_newline_if_needed(out: &mut Vec<u8>)
    ensures
        final(out)@ == ensure_newline(old(out)@),
{
    if !ends_with_newline(out) {
        push_byte(out, 10);
    }
}

/// Serialize a world back to a map file, preserving comments captured at load.
/// Entries are written without trailing newlines so that the leading whitespace
/// captured above the *next* entry provides the separator, matching what the
/// parser saw. A single newline is appended at the end of the file.
///
/// `brushes` holds the texts of the brushes in use, in the order of their ids.
pub fn save_map_text(world: &World, player: &PlayerText, brushes: &Vec<BrushText>) -> (r: Vec<u8>)
    requires
        world.wf(),
        brushes@.len() == world.active().len(),
    ensures
        r@ == saved_map(world.header@, player_text(*player), world_comments(*world), brush_texts(brushes@)),
{
    let ids = world.active_brushes();
    let ghost comments = world_comments(*world);
    let ghost texts = brush_texts(brushes@);
    let mut out: Vec<u8> = Vec::new();
    append(&mut out, world.header.as_slice());
    let p = serialize_player(player);
    append(&mut out, p.as_slice());
    let ghost start = out@;
    let mut i: usize = 0;
    while i < ids.len()
        invariant
            0 <= i <= ids@.len(),
            ids@.len() == brushes@.len(),
            ids@.len() == world.active().len(),
            comments == world_comments(*world),
            texts == brush_texts(brushes@),
            forall|j: int| 0 <= j < ids@.len() ==> (#[trigger] ids@[j]).0 == world.active()[j],
            out@ == saved_entries(start, comments.subrange(0, i as int), texts.subrange(0, i as int)),
        decreases ids@.len() - i,
    {
        let ghost before = out@;
        let (id, _) = ids[i];
        assert(id == world.active()[i as int]);
        push_newline_if_needed(&mut out);
        match world.comment(id) {
            Some(c) => {
                let c_slice = c.as_slice();
                if c.len() > 0 && c[0] == 10 {
                    let mut k: usize = 1;
                    let ghost mid = out@;
                    while k < c.len()
                        invariant
                            1 <= k <= c@.len(),
                            out@ == mid + c@.subrange(1, k as int),
                        decreases c@.len() - k,
                    {
                        out.push(c[k]);
                        k = k + 1;
                        assert(out@ =~= mid + c@.subrange(1, k as int));
                    }
                    assert(c@.subrange(1, c@.len() as int) =~= c@.drop_first());
                } else {
                    append(&mut out, c_slice);
                }
            },
            None => {},
        }
        let t = serialize_brush(&brushes[i]);
        append(&mut out, t.as_slice());
        proof {
            let cs = comments.subrange(0, i + 1);
            let ts = texts.subrange(0, i + 1);
            assert(cs.drop_last() =~= comments.subrange(0, i as int));
            assert(ts.drop_last() =~= texts.subrange(0, i as int));
            assert(cs.last() == comments[i as int]);
            assert(ts.last() == texts[i as int]);
            assert(out@ =~= append_entry(before, comments[i as int], texts[i as int]));
        }
        i = i + 1;
    }
    push_newline_if_needed(&mut out);
    proof {
        assert(comments.subrange(0, ids@.len() as int) =~= comments);
        assert(texts.subrange(0, ids@.len() as int) =~= texts);
    }
    out
}

// ---------------------------------------------------------------------
// Loading maps
// ---------------------------------------------------------------------

/// A brush read from a map, with the text kept from before its entry.
pub struct LoadedBrush {
    pub comment: Option<Vec<u8>>,
    pub brush: Brush,
}

/// The slots a world holds after the brushes of `items` were added to an
/// empty world, in order: one per brush until the world is full.
pub open spec fn loaded_slots(items: Seq<LoadedBrush>) -> Seq<Brush> {
    let n = if items.len() <= MAX_BRUSHES {
        items.len() as int
    } else {
        MAX_BRUSHES as int
    };
    Seq::new(n as nat, |i: int| items[i].brush)
}

/// The id that the `i`-th brush added to an empty world gets.
pub open spec fn loaded_id(i: int) -> u16 {
    if i < MAX_BRUSHES {
        i as u16
    } else {
        SLOT_EMPTY
    }
}

/// What the grid rebuild after adding the `i`-th brush answers (`None` when
/// the world was full, so that nothing was added or rebuilt).
#[verifier::opaque]
pub open spec fn load_error(items: Seq<LoadedBrush>, i: int) -> Option<GridError> {
    if i < MAX_BRUSHES {
        grid_error(loaded_slots(items.take(i + 1)), Seq::empty())
    } else {
        None
    }
}

proof fn lemma_loaded_slots_step(all: Seq<LoadedBrush>, i: int)
    requires
        0 <= i < all.len(),
    ensures
        loaded_slots(all.take(i + 1)) == if i < MAX_BRUSHES {
            loaded_slots(all.take(i)).push(all[i].brush)
        } else {
            loaded_slots(all.take(i))
        },
{
    let a = loaded_slots(all.take(i + 1));
    let b = loaded_slots(all.take(i));
    if i < MAX_BRUSHES {
        assert(a =~= b.push(all[i].brush));
    } else {
        assert(a =~= b);
    }
}

/// The kept texts of the first `n` brushes, by their ids.
pub open spec fn loaded_comments(items: Seq<LoadedBrush>, n: int) -> Map<u16, Vec<u8>>
    decreases n,
{
    if n <= 0 {
        Map::empty()
    } else {
        let m = loaded_comments(items, n - 1);
        match items[n - 1].comment {
            Some(c) => m.insert(loaded_id(n - 1), c),
            None => m,
        }
    }
}

/// The grid of `w` describes its brushes (kept opaque while loading, so that
/// the load loop does not unfold it).
#[verifier::opaque]
spec fn built(w: World) -> bool {
    w.grid_built()
}

/// Add one loaded brush to a world that has no free slot, and keep its text.
fn add_loaded(world: &mut World, item: LoadedBrush) -> (r: Result<u16, GridError>)
    requires
        old(world).wf(),
        built(*old(world)),
        old(world).free_view().len() == 0,
    ensures
        final(world).wf(),
        final(world).free_view().len() == 0,
        final(world).header == old(world).header,
        final(world).brushes_view() == if old(world).brushes_view().len() < MAX_BRUSHES {
            old(world).brushes_view().push(item.brush)
        } else {
            old(world).brushes_view()
        },
        r == if old(world).brushes_view().len() < MAX_BRUSHES {
            match grid_error(final(world).brushes_view(), Seq::empty()) {
                None => Ok::<u16, GridError>(old(world).brushes_view().len() as u16),
                Some(e) => Err(e),
            }
        } else {
            Ok::<u16, GridError>(SLOT_EMPTY)
        },
        r is Ok ==> built(*final(world)),
        r matches Ok(id) ==> final(world).comments@ == match item.comment {
            Some(c) => old(world).comments@.insert(id, c),
            None => old(world).comments@,
        },
{
    proof {
        reveal(built);
    }
    let id = match world.add_brush(item.brush) {
        Ok(id) => id,
        Err(e) => {
            assert(world.free_view() =~= Seq::<u16>::empty());
            return Err(e);
        },
    };
    assert(world.free_view() =~= Seq::<u16>::empty());
    match item.comment {
        Some(c) => {
            world.set_comment(id, c);
        },
        None => {},
    }
    Ok(id)
}

/// Build the world of a map: `header` is the text before its first entry
/// and `items` its brushes in order. Each brush is added as by `add_brush`;
/// the first grid rebuild that fails ends the load with its error.
pub fn build_world(header: Vec<u8>, items: Vec<LoadedBrush>) -> (r: Result<World, GridError>)
    ensures
        match r {
            Ok(w) => {
                &&& forall|i: int| 0 <= i < items@.len() ==> #[trigger] load_error(items@, i) is None
                &&& w.wf()
                &&& w.brushes_view() == loaded_slots(items@)
                &&& w.free_view().len() == 0
                &&& w.grid_built()
                &&& w.header == header
                &&& w.comments@ == loaded_comments(items@, items@.len() as int)
            },
            Err(e) => exists|i: int|
                0 <= i < items@.len() && load_error(items@, i) == Some(e) && forall|j: int|
                    0 <= j < i ==> #[trigger] load_error(items@, j) is None,
        },
{
    let ghost all = items@;
    assert(all.len() == items.len());
    let mut world = World::new();
    world.set_header(header);
    proof {
        reveal(built);
    }
    let mut src = items;
    let mut rest: Vec<LoadedBrush> = Vec::new();
    while src.len() > 0
        invariant
            src@.len() + rest@.len() == all.len(),
            forall|k: int| 0 <= k < src@.len() ==> #[trigger] src@[k] == all[k],
            forall|k: int| 0 <= k < rest@.len() ==> #[trigger] rest@[k] == all[all.len() - 1 - k],
        decreases src@.len(),
    {
        let item = src.pop().unwrap();
        rest.push(item);
    }
    let mut i: usize = 0;
    while rest.len() > 0
        invariant
            i + rest@.len() == all.len(),
            all == items@,
            all.len() <= usize::MAX,
            forall|k: int| 0 <= k < rest@.len() ==> #[trigger] rest@[k] == all[all.len() - 1 - k],
            world.wf(),
            world.brushes_view() == loaded_slots(all.take(i as int)),
            world.free_view().len() == 0,
            built(world),
            world.header == header,
            world.comments@ == loaded_comments(all, i as int),
            forall|j: int| 0 <= j < i ==> #[trigger] load_error(all, j) is None,
        decreases rest@.len(),
    {
        let item = rest.pop().unwrap();
        assert(item == all[i as int]);
        proof {
            lemma_loaded_slots_step(all, i as int);
        }
        let id = match add_loaded(&mut world, item) {
            Ok(id) => id,
            Err(e) => {
                assert(load_error(all, i as int) == Some(e)) by {
                    reveal(load_error);
                }
                assert(0 <= i < all.len() && load_error(all, i as int) == Some(e) && forall|j: int|
                    0 <= j < i ==> #[trigger] load_error(all, j) is None);
                return Err(e);
            },
        };
        assert(load_error(all, i as int) is None) by {
            reveal(load_error);
        }
        assert(id == loaded_id(i as int));
        i = i + 1;
    }
    assert(all.take(i as int) =~= all);
    proof {
        reveal(built);
    }
    Ok(world)
}

} // verus!
