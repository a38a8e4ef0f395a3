//! Saving a map and parsing the saved text gives the map back.
//!
//! The proofs follow the parser over the text that `saved_map` builds: the
//! kept texts are trivia (whitespace and `#` comments), every entry starts
//! with `(`, and every attribute is ` name=value` with a value that ends
//! where the next space or `)` starts.
use vstd::prelude::*;
use crate::maps::{
    Span, ParseError, BrushFields, PlayerFields, is_ws, is_alpha, is_ident_char,
    ws_end, comment_end, ident_end, is_num_char, is_digit, num_end, digits_end, find_byte,
    sign_skip, valid_number, tok_number, tok_ident, tok_expect, tok_string, strip_newline,
    content, pos_ok, attr_word, attr_index, attr_index_from, attr_text, brush_attrs,
    player_attrs, with_num, with_player_num, is_player_attr, word_player, word_sub, shape_word,
    shape_index, shape_index_from, brush_entry, tok_player, default_fields, kind_name, brush_text,
    shape_text, player_text, rotation_text, PlayerText, BrushText, RotationText, MapItem, MapEntry,
    map_items, parse_map_spec, saved_map, saved_entries, append_entry, ensure_newline, brush_texts,
    empty_player, lemma_ws_bounds, lemma_tok_bounds, lemma_player_attrs_bounds, lemma_brush_entry_bounds,
    LoadedBrush, loaded_slots, loaded_comments, loaded_id, world_comments,
};
use crate::world::{World, MAX_BRUSHES, active_upto};

verus! {

// ---------------------------------------------------------------------
// Trivia
// ---------------------------------------------------------------------

/// `s` from `i` on is whitespace and complete `#` comments.
pub open spec fn trivia_from(s: Seq<u8>, i: int) -> bool
    decreases s.len() - i,
{
    if i < 0 || i >= s.len() {
        true
    } else if is_ws(s[i]) {
        trivia_from(s, i + 1)
    } else if s[i] == 35 {
        comment_trivia(s, i + 1)
    } else {
        false
    }
}

/// `s` from `i` on is the rest of a `#` comment, its newline, then trivia.
pub open spec fn comment_trivia(s: Seq<u8>, i: int) -> bool
    decreases s.len() - i,
{
    if i < 0 || i >= s.len() {
        false
    } else if s[i] == 10 {
        trivia_from(s, i + 1)
    } else {
        comment_trivia(s, i + 1)
    }
}

/// Text made of whitespace and complete `#` comments: what the parser keeps
/// before an entry.
pub open spec fn is_trivia(s: Seq<u8>) -> bool {
    trivia_from(s, 0)
}

/// `piece` stands in `t` at position `p`.
pub open spec fn stands_at(t: Seq<u8>, p: int, piece: Seq<u8>) -> bool {
    0 <= p && p + piece.len() <= t.len() && t.subrange(p, p + piece.len()) == piece
}

pub proof fn lemma_stands_at_index(t: Seq<u8>, p: int, piece: Seq<u8>, i: int)
    requires
        stands_at(t, p, piece),
        0 <= i < piece.len(),
    ensures
        t[p + i] == piece[i],
{
    assert(t.subrange(p, p + piece.len())[i] == t[p + i]);
}

/// The pieces of a concatenation stand in `t` where the concatenation does.
pub proof fn lemma_stands_split(t: Seq<u8>, p: int, a: Seq<u8>, b: Seq<u8>)
    requires
        stands_at(t, p, a + b),
    ensures
        stands_at(t, p, a),
        stands_at(t, p + a.len(), b),
{
    assert(t.subrange(p, p + a.len()) =~= (a + b).subrange(0, a.len() as int));
    assert((a + b).subrange(0, a.len() as int) =~= a);
    assert(t.subrange(p + a.len(), p + a.len() + b.len()) =~= (a + b).subrange(
        a.len() as int,
        (a + b).len() as int,
    ));
    assert((a + b).subrange(a.len() as int, (a + b).len() as int) =~= b);
}

/// Whitespace skipping runs through trivia that stands in the text.
pub proof fn lemma_ws_through(t: Seq<u8>, p: int, s: Seq<u8>, i: int)
    requires
        stands_at(t, p, s),
        0 <= i <= s.len(),
    ensures
        trivia_from(s, i) ==> ws_end(t, p + i) == ws_end(t, p + s.len()),
        comment_trivia(s, i) ==> comment_end(t, p + i) == ws_end(t, p + s.len()),
    decreases s.len() - i,
{
    if i < s.len() {
        lemma_stands_at_index(t, p, s, i);
        lemma_ws_through(t, p, s, i + 1);
    }
}

/// Whitespace skipping stops at a byte that is neither whitespace nor `#`.
pub proof fn lemma_ws_stops(t: Seq<u8>, q: int)
    requires
        0 <= q < t.len(),
        !is_ws(t[q]),
        t[q] != 35,
    ensures
        ws_end(t, q) == q,
{
}

/// Trivia after a newline: a kept text with one leading newline taken off,
/// and a newline put back in front, is still trivia.
pub proof fn lemma_newline_strip_trivia(c: Seq<u8>)
    requires
        is_trivia(c),
    ensures
        is_trivia(seq![10u8] + strip_newline(c)),
{
    let s = strip_newline(c);
    let n = seq![10u8] + s;
    lemma_trivia_shift(c, n);
}

/// `seq![10] + strip_newline(c)` agrees with trivia `c` after their first bytes.
proof fn lemma_trivia_shift(c: Seq<u8>, n: Seq<u8>)
    requires
        is_trivia(c),
        n == seq![10u8] + strip_newline(c),
    ensures
        trivia_from(n, 0),
{
    if c.len() > 0 && c[0] == 10 {
        assert(n =~= c);
    } else {
        assert(n.drop_first() =~= c);
        lemma_trivia_suffix(n, c, 0);
        assert(trivia_from(n, 1));
    }
}

/// Trivia of `c` from `i` is trivia of `n` from `i + 1` when `n` is one byte
/// and then `c`.
proof fn lemma_trivia_suffix(n: Seq<u8>, c: Seq<u8>, i: int)
    requires
        n.len() == c.len() + 1,
        forall|j: int| 0 <= j < c.len() ==> #[trigger] c[j] == n[j + 1],
        0 <= i <= c.len(),
    ensures
        trivia_from(c, i) ==> trivia_from(n, i + 1),
        comment_trivia(c, i) ==> comment_trivia(n, i + 1),
    decreases c.len() - i,
{
    if i < c.len() {
        lemma_trivia_suffix(n, c, i + 1);
        assert(c[i] == n[i + 1]);
    }
}

// ---------------------------------------------------------------------
// Numbers
// ---------------------------------------------------------------------

proof fn lemma_digits_all(s: Seq<u8>, i: int)
    requires
        0 <= i <= s.len(),
    ensures
        i <= digits_end(s, i) <= s.len(),
        forall|j: int| i <= j < digits_end(s, i) ==> is_digit(#[trigger] s[j]),
    decreases s.len() - i,
{
    if i < s.len() && is_digit(s[i]) {
        lemma_digits_all(s, i + 1);
    }
}

/// A number is not empty and is made of number bytes only.
pub proof fn lemma_number_bytes(v: Seq<u8>)
    requires
        valid_number(v),
    ensures
        v.len() > 0,
        forall|j: int| 0 <= j < v.len() ==> is_num_char(#[trigger] v[j]),
{
    let i0 = sign_skip(v, 0);
    lemma_digits_all(v, i0);
    let i1 = digits_end(v, i0);
    let has_point = i1 < v.len() && v[i1] == 46;
    if has_point {
        lemma_digits_all(v, i1 + 1);
    }
    let i2 = if has_point {
        digits_end(v, i1 + 1)
    } else {
        i1
    };
    if i2 < v.len() && (v[i2] == 101 || v[i2] == 69) {
        let j = sign_skip(v, i2 + 1);
        lemma_digits_all(v, j);
    }
    assert forall|j: int| 0 <= j < v.len() implies is_num_char(#[trigger] v[j]) by {
        if j < i0 {
        } else if j < i1 {
            assert(is_digit(v[j]));
        } else if has_point && j == i1 {
        } else if j < i2 {
            assert(is_digit(v[j]));
        } else {
            let k = sign_skip(v, i2 + 1);
            if j > i2 && j >= k {
                assert(is_digit(v[j]));
            }
        }
    }
}

/// A number that stands in the text, followed by the end of the text or a
/// byte that cannot continue it, is read as one token.
pub proof fn lemma_number_token(t: Seq<u8>, q: int, v: Seq<u8>)
    requires
        stands_at(t, q, v),
        valid_number(v),
        q + v.len() == t.len() || !is_num_char(t[q + v.len()]),
    ensures
        tok_number(t, q) == Ok::<(Span, int), ParseError>((Span { start: q as usize, end: (q + v.len()) as usize }, q + v.len())),
{
    lemma_number_bytes(v);
    lemma_stands_at_index(t, q, v, 0);
    assert(ws_end(t, q) == q);
    assert forall|j: int| 0 <= j < v.len() implies is_num_char(#[trigger] t[q + j]) by {
        lemma_stands_at_index(t, q, v, j);
    }
    lemma_num_run(t, q, q + v.len());
    assert(t.subrange(q, q + v.len()) == v);
}

proof fn lemma_num_run(t: Seq<u8>, q: int, e: int)
    requires
        0 <= q <= e <= t.len(),
        forall|j: int| 0 <= j < e - q ==> is_num_char(#[trigger] t[q + j]),
        e == t.len() || !is_num_char(t[e]),
    ensures
        num_end(t, q) == e,
    decreases e - q,
{
    if q < e {
        assert(is_num_char(t[q + 0]));
        assert forall|j: int| 0 <= j < e - (q + 1) implies is_num_char(#[trigger] t[(q + 1) + j]) by {
            assert(is_num_char(t[q + (j + 1)]));
        }
        lemma_num_run(t, q + 1, e);
    }
}

// ---------------------------------------------------------------------
// Names and attributes
// ---------------------------------------------------------------------

/// A name the parser reads as one identifier.
pub open spec fn name_ok(w: Seq<u8>) -> bool {
    &&& w.len() > 0
    &&& is_alpha(w[0])
    &&& forall|i: int| 0 <= i < w.len() ==> is_ident_char(#[trigger] w[i])
}

pub proof fn lemma_attr_word_name(k: int)
    requires
        0 <= k < 12,
    ensures
        name_ok(attr_word(k)),
{
    let w = attr_word(k);
    assert forall|i: int| 0 <= i < w.len() implies is_ident_char(#[trigger] w[i]) by {
        if k == 11 {
            assert(w[i] == 109 || w[i] == 97 || w[i] == 116);
        }
    }
}

/// The attribute names are told apart by their index.
pub proof fn lemma_attr_index_word(k: int)
    requires
        0 <= k < 12,
    ensures
        attr_index(attr_word(k)) == k,
{
    let w = attr_word(k);
    assert forall|j: int| 0 <= j < k implies attr_word(j) != w by {
        if attr_word(j).len() == w.len() {
            if w.len() == 1 {
                assert(attr_word(j)[0] != w[0]);
            } else {
                assert(attr_word(j)[0] != w[0] || attr_word(j)[1] != w[1]);
            }
        }
    }
    lemma_attr_index_from(w, 0, k);
}

proof fn lemma_attr_index_from(w: Seq<u8>, j: int, k: int)
    requires
        0 <= j <= k < 12,
        w == attr_word(k),
        forall|i: int| 0 <= i < k ==> attr_word(i) != w,
    ensures
        attr_index_from(w, j) == k,
    decreases k - j,
{
    if j < k {
        lemma_attr_index_from(w, j + 1, k);
    }
}

/// A name that stands in the text, followed by a byte that cannot continue
/// it, is read as one identifier.
pub proof fn lemma_ident_token(t: Seq<u8>, q: int, w: Seq<u8>)
    requires
        stands_at(t, q, w),
        name_ok(w),
        q + w.len() < t.len(),
        t.len() <= usize::MAX,
        !is_ident_char(t[q + w.len()]),
    ensures
        tok_ident(t, q) == Ok::<(Span, int), ParseError>((Span { start: q as usize, end: (q + w.len()) as usize }, q + w.len())),
        content(t, Span { start: q as usize, end: (q + w.len()) as usize }) == w,
{
    lemma_stands_at_index(t, q, w, 0);
    assert(ws_end(t, q) == q);
    lemma_ident_run(t, q + 1, q + w.len(), q, w);
}

proof fn lemma_ident_run(t: Seq<u8>, i: int, e: int, q: int, w: Seq<u8>)
    requires
        stands_at(t, q, w),
        name_ok(w),
        e == q + w.len(),
        q < i <= e < t.len(),
        !is_ident_char(t[e]),
    ensures
        ident_end(t, i) == e,
    decreases e - i,
{
    if i < e {
        lemma_stands_at_index(t, q, w, i - q);
        lemma_ident_run(t, i + 1, e, q, w);
    }
}

/// A run without the byte `c`, then `c`.
proof fn lemma_find_run(t: Seq<u8>, q: int, e: int, c: u8)
    requires
        0 <= q <= e < t.len(),
        forall|j: int| q <= j < e ==> #[trigger] t[j] != c,
        t[e] == c,
    ensures
        find_byte(t, q, c) == e,
    decreases e - q,
{
    if q < e {
        lemma_find_run(t, q + 1, e, c);
    }
}

/// An attribute as written: its index and its value (for `mat`, the name
/// without quotes).
pub type Attr = (int, Seq<u8>);

/// The text of an attribute; the material name is quoted.
pub open spec fn piece(a: Attr) -> Seq<u8> {
    if a.0 == 11 {
        attr_text(11, seq![39u8] + a.1 + seq![39u8])
    } else {
        attr_text(a.0, a.1)
    }
}

/// The text of a list of attributes.
pub open spec fn attrs_text(l: Seq<Attr>) -> Seq<u8>
    decreases l.len(),
{
    if l.len() == 0 {
        Seq::empty()
    } else {
        piece(l[0]) + attrs_text(l.drop_first())
    }
}

/// An attribute the parser reads back: a known name, a number value, or a
/// material name without a single quote.
pub open spec fn attr_ok(a: Attr) -> bool {
    &&& 0 <= a.0 < 12
    &&& a.0 < 11 ==> valid_number(a.1)
    &&& a.0 == 11 ==> forall|i: int| 0 <= i < a.1.len() ==> #[trigger] a.1[i] != 39
}

/// The value the last attribute with index `k` gives, if any.
pub open spec fn list_value(l: Seq<Attr>, k: int) -> Option<Seq<u8>>
    decreases l.len(),
{
    if l.len() == 0 {
        None
    } else {
        match list_value(l.drop_first(), k) {
            Some(v) => Some(v),
            None => if l[0].0 == k {
                Some(l[0].1)
            } else {
                None
            },
        }
    }
}

/// The field of brush attribute `k` (0..12).
pub open spec fn field_of(f: BrushFields, k: int) -> Option<Span> {
    if k == 0 {
        f.x
    } else if k == 1 {
        f.y
    } else if k == 2 {
        f.z
    } else if k == 3 {
        f.s
    } else if k == 4 {
        f.sx
    } else if k == 5 {
        f.sy
    } else if k == 6 {
        f.sz
    } else if k == 7 {
        f.ra
    } else if k == 8 {
        f.rx
    } else if k == 9 {
        f.ry
    } else if k == 10 {
        f.rz
    } else {
        f.mat
    }
}

/// The fields read from a list of attributes: each one the list gives holds
/// a span whose text is the value, the others are as in `f`.
pub open spec fn fields_read(t: Seq<u8>, g: BrushFields, f: BrushFields, l: Seq<Attr>) -> bool {
    &&& g.sub == f.sub
    &&& g.kind == f.kind
    &&& forall|k: int|
        0 <= k < 12 ==> match #[trigger] list_value(l, k) {
            Some(v) => field_of(g, k) matches Some(s) && s.start <= s.end <= t.len() && content(t, s) == v,
            None => field_of(g, k) == field_of(f, k),
        }
}

/// One attribute: where its value stands and where the attribute ends.
proof fn lemma_attr_prefix(t: Seq<u8>, p: int, a: Attr, rest: Seq<u8>)
    requires
        stands_at(t, p, piece(a) + rest),
        attr_ok(a),
        rest.len() > 0,
        rest[0] == 32 || rest[0] == 41,
        t.len() <= usize::MAX,
    ensures
        ws_end(t, p) == p + 1,
        p + 1 < t.len() && is_alpha(t[p + 1]),
        tok_ident(t, p + 1) == Ok::<(Span, int), ParseError>((Span { start: (p + 1) as usize, end: (p + 1 + attr_word(a.0).len()) as usize }, p + 1 + attr_word(a.0).len())),
        attr_index(content(t, Span { start: (p + 1) as usize, end: (p + 1 + attr_word(a.0).len()) as usize })) == a.0,
        tok_expect(t, p + 1 + attr_word(a.0).len(), 61) == Ok::<int, ParseError>(p + 2 + attr_word(a.0).len()),
        stands_at(t, p + 2 + attr_word(a.0).len(), if a.0 == 11 { seq![39u8] + a.1 + seq![39u8] } else { a.1 }),
        p + piece(a).len() < t.len(),
        t[p + piece(a).len()] == rest[0],
        piece(a).len() == 2 + attr_word(a.0).len() + if a.0 == 11 { a.1.len() + 2 } else { a.1.len() },
{
    let w = attr_word(a.0);
    let v = if a.0 == 11 {
        seq![39u8] + a.1 + seq![39u8]
    } else {
        a.1
    };
    assert(piece(a) =~= seq![32u8] + w + seq![61u8] + v);
    let whole = seq![32u8] + w + seq![61u8] + v + rest;
    assert(piece(a) + rest =~= whole);
    lemma_stands_split(t, p, seq![32u8] + w + seq![61u8] + v, rest);
    lemma_stands_split(t, p, seq![32u8] + w + seq![61u8], v);
    lemma_stands_split(t, p, seq![32u8] + w, seq![61u8]);
    lemma_stands_split(t, p, seq![32u8], w);
    lemma_stands_at_index(t, p, seq![32u8], 0);
    lemma_stands_at_index(t, p + 1 + w.len(), seq![61u8], 0);
    lemma_stands_at_index(t, p + piece(a).len(), rest, 0);
    lemma_attr_word_name(a.0);
    lemma_stands_at_index(t, p + 1, w, 0);
    assert(ws_end(t, p + 1) == p + 1);
    assert(ws_end(t, p) == p + 1);
    lemma_ident_token(t, p + 1, w);
    lemma_attr_index_word(a.0);
    assert(ws_end(t, p + 1 + w.len()) == p + 1 + w.len());
}

proof fn lemma_attrs_text_first(l: Seq<Attr>)
    requires
        l.len() > 0,
    ensures
        attrs_text(l).len() > 0,
        attrs_text(l)[0] == 32,
{
    let a = l[0];
    assert(piece(a)[0] == 32);
    assert((piece(a) + attrs_text(l.drop_first()))[0] == piece(a)[0]);
}

proof fn lemma_with_num_field(f: BrushFields, a: int, v: Span, k: int)
    requires
        0 <= a < 11,
        0 <= k < 12,
    ensures
        field_of(with_num(f, a, v), k) == if k == a {
            Some(v)
        } else {
            field_of(f, k)
        },
        with_num(f, a, v).sub == f.sub,
        with_num(f, a, v).kind == f.kind,
{
}

/// One number attribute of a brush, as `brush_attrs` reads it.
proof fn lemma_brush_attrs_number(t: Seq<u8>, p: int, f: BrushFields, key: Span, k1: int, k2: int, a: int, v: Span, k3: int)
    requires
        pos_ok(t, p),
        ws_end(t, p) < t.len(),
        t[ws_end(t, p)] != 41,
        tok_ident(t, ws_end(t, p)) == Ok::<(Span, int), ParseError>((key, k1)),
        tok_expect(t, k1, 61) == Ok::<int, ParseError>(k2),
        attr_index(content(t, key)) == a,
        0 <= a < 11,
        tok_number(t, k2) == Ok::<(Span, int), ParseError>((v, k3)),
    ensures
        brush_attrs(t, p, f) == brush_attrs(t, k3, with_num(f, a, v)),
{
}

/// The `mat` attribute of a brush, as `brush_attrs` reads it.
proof fn lemma_brush_attrs_mat(t: Seq<u8>, p: int, f: BrushFields, key: Span, k1: int, k2: int, v: Span, k3: int)
    requires
        pos_ok(t, p),
        ws_end(t, p) < t.len(),
        t[ws_end(t, p)] != 41,
        tok_ident(t, ws_end(t, p)) == Ok::<(Span, int), ParseError>((key, k1)),
        tok_expect(t, k1, 61) == Ok::<int, ParseError>(k2),
        attr_index(content(t, key)) == 11,
        ws_end(t, k2) == k2,
        k2 < t.len(),
        t[k2] == 39,
        tok_string(t, k2) == Ok::<(Span, int), ParseError>((v, k3)),
    ensures
        brush_attrs(t, p, f) == brush_attrs(t, k3, BrushFields { mat: Some(v), ..f }),
{
}

/// The end of a brush's attributes, as `brush_attrs` reads it.
proof fn lemma_brush_attrs_close(t: Seq<u8>, p: int, f: BrushFields)
    requires
        pos_ok(t, p),
        p < t.len(),
        t[p] == 41,
    ensures
        brush_attrs(t, p, f) == Ok::<(BrushFields, int), ParseError>((f, p + 1)),
{
    assert(ws_end(t, p) == p);
}

/// The attributes of a brush entry, followed by its `)`, are read back.
#[verifier::rlimit(60)]
pub proof fn lemma_brush_attrs_list(t: Seq<u8>, p: int, l: Seq<Attr>, f: BrushFields)
    requires
        t.len() <= usize::MAX,
        stands_at(t, p, attrs_text(l) + seq![41u8]),
        forall|j: int| 0 <= j < l.len() ==> attr_ok(#[trigger] l[j]),
    ensures
        brush_attrs(t, p, f) matches Ok((g, e)) && e == p + attrs_text(l).len() + 1 && fields_read(t, g, f, l),
    decreases l.len(),
{
    if l.len() == 0 {
        assert(attrs_text(l) + seq![41u8] =~= seq![41u8]);
        lemma_stands_at_index(t, p, seq![41u8], 0);
        lemma_brush_attrs_close(t, p, f);
        assert forall|k: int| 0 <= k < 12 implies match #[trigger] list_value(l, k) {
            Some(v) => field_of(f, k) matches Some(s) && s.start <= s.end <= t.len() && content(t, s) == v,
            None => field_of(f, k) == field_of(f, k),
        } by {}
    } else {
        let a = l[0];
        let rest_l = l.drop_first();
        let rest = attrs_text(rest_l) + seq![41u8];
        assert(attrs_text(l) + seq![41u8] =~= piece(a) + rest);
        if rest_l.len() > 0 {
            lemma_attrs_text_first(rest_l);
            assert(rest[0] == 32);
        } else {
            assert(rest =~= seq![41u8]);
        }
        assert(attr_ok(l[0]));
        lemma_attr_prefix(t, p, a, rest);
        lemma_stands_split(t, p, piece(a), rest);
        assert forall|j: int| 0 <= j < rest_l.len() implies attr_ok(#[trigger] rest_l[j]) by {
            assert(rest_l[j] == l[j + 1]);
        }
        let w = attr_word(a.0);
        let k1 = p + 1 + w.len();
        let k2 = p + 2 + w.len();
        let key = Span { start: (p + 1) as usize, end: (p + 1 + w.len()) as usize };
        let e1 = p + piece(a).len();
        if a.0 == 11 {
            let m = a.1;
            let qv = seq![39u8] + m + seq![39u8];
            lemma_stands_at_index(t, k2, qv, 0);
            assert(ws_end(t, k2) == k2);
            assert forall|j: int| k2 + 1 <= j < k2 + 1 + m.len() implies #[trigger] t[j] != 39 by {
                lemma_stands_at_index(t, k2, qv, j - k2);
                assert(qv[j - k2] == m[j - k2 - 1]);
            }
            lemma_stands_at_index(t, k2, qv, m.len() + 1int);
            lemma_find_run(t, k2 + 1, k2 + 1 + m.len(), 39);
            let v = Span { start: (k2 + 1) as usize, end: (k2 + 1 + m.len()) as usize };
            assert(tok_string(t, k2) == Ok::<(Span, int), ParseError>((v, k2 + m.len() + 2)));
            assert(content(t, v) =~= m) by {
                assert forall|j: int| 0 <= j < m.len() implies #[trigger] content(t, v)[j] == m[j] by {
                    lemma_stands_at_index(t, k2, qv, j + 1);
                }
            }
            let f2 = BrushFields { mat: Some(v), ..f };
            lemma_brush_attrs_mat(t, p, f, key, k1, k2, v, e1);
            lemma_brush_attrs_list(t, e1, rest_l, f2);
            let (g, e) = brush_attrs(t, e1, f2).unwrap();
            assert forall|k: int| 0 <= k < 12 implies match #[trigger] list_value(l, k) {
                Some(v) => field_of(g, k) matches Some(s) && s.start <= s.end <= t.len() && content(t, s) == v,
                None => field_of(g, k) == field_of(f, k),
            } by {
                assert(list_value(rest_l, k) == list_value(l.drop_first(), k));
            }
            assert(attrs_text(l).len() == piece(a).len() + attrs_text(rest_l).len());
        } else {
            let v = Span { start: k2 as usize, end: (k2 + a.1.len()) as usize };
            assert(!is_num_char(rest[0]));
            lemma_number_token(t, k2, a.1);
            let f2 = with_num(f, a.0, v);
            lemma_brush_attrs_number(t, p, f, key, k1, k2, a.0, v, e1);
            lemma_brush_attrs_list(t, e1, rest_l, f2);
            let (g, e) = brush_attrs(t, e1, f2).unwrap();
            assert forall|k: int| 0 <= k < 12 implies match #[trigger] list_value(l, k) {
                Some(v) => field_of(g, k) matches Some(s) && s.start <= s.end <= t.len() && content(t, s) == v,
                None => field_of(g, k) == field_of(f, k),
            } by {
                lemma_with_num_field(f, a.0, v, k);
                assert(list_value(rest_l, k) == list_value(l.drop_first(), k));
            }
            assert(attrs_text(l).len() == piece(a).len() + attrs_text(rest_l).len());
        }
    }
}

/// The field of player attribute `k` (x, y, z; any other index is ra).
pub open spec fn player_field_of(f: PlayerFields, k: int) -> Option<Span> {
    if k == 0 {
        f.x
    } else if k == 1 {
        f.y
    } else if k == 2 {
        f.z
    } else {
        f.ra
    }
}

/// The player fields read from a list of attributes.
pub open spec fn player_fields_read(t: Seq<u8>, g: PlayerFields, f: PlayerFields, l: Seq<Attr>) -> bool {
    forall|k: int|
        is_player_attr(k) ==> match #[trigger] list_value(l, k) {
            Some(v) => player_field_of(g, k) matches Some(s) && s.start <= s.end <= t.len() && content(t, s) == v,
            None => player_field_of(g, k) == player_field_of(f, k),
        }
}

/// An attribute of a player entry: x, y, z or ra with a number.
pub open spec fn player_attr_ok(a: Attr) -> bool {
    is_player_attr(a.0) && valid_number(a.1)
}

proof fn lemma_player_attrs_number(t: Seq<u8>, p: int, f: PlayerFields, key: Span, k1: int, k2: int, a: int, v: Span, k3: int)
    requires
        pos_ok(t, p),
        ws_end(t, p) < t.len(),
        t[ws_end(t, p)] != 41,
        tok_ident(t, ws_end(t, p)) == Ok::<(Span, int), ParseError>((key, k1)),
        tok_expect(t, k1, 61) == Ok::<int, ParseError>(k2),
        attr_index(content(t, key)) == a,
        is_player_attr(a),
        tok_number(t, k2) == Ok::<(Span, int), ParseError>((v, k3)),
    ensures
        player_attrs(t, p, f) == player_attrs(t, k3, with_player_num(f, a, v)),
{
}

proof fn lemma_player_attrs_close(t: Seq<u8>, p: int, f: PlayerFields)
    requires
        pos_ok(t, p),
        p < t.len(),
        t[p] == 41,
    ensures
        player_attrs(t, p, f) == Ok::<(PlayerFields, int), ParseError>((f, p + 1)),
{
    assert(ws_end(t, p) == p);
}

/// The attributes of a player entry, followed by its `)`, are read back.
#[verifier::rlimit(60)]
pub proof fn lemma_player_attrs_list(t: Seq<u8>, p: int, l: Seq<Attr>, f: PlayerFields)
    requires
        t.len() <= usize::MAX,
        stands_at(t, p, attrs_text(l) + seq![41u8]),
        forall|j: int| 0 <= j < l.len() ==> player_attr_ok(#[trigger] l[j]),
    ensures
        player_attrs(t, p, f) matches Ok((g, e)) && e == p + attrs_text(l).len() + 1 && player_fields_read(t, g, f, l),
    decreases l.len(),
{
    if l.len() == 0 {
        assert(attrs_text(l) + seq![41u8] =~= seq![41u8]);
        lemma_stands_at_index(t, p, seq![41u8], 0);
        lemma_player_attrs_close(t, p, f);
    } else {
        let a = l[0];
        let rest_l = l.drop_first();
        let rest = attrs_text(rest_l) + seq![41u8];
        assert(attrs_text(l) + seq![41u8] =~= piece(a) + rest);
        if rest_l.len() > 0 {
            lemma_attrs_text_first(rest_l);
            assert(rest[0] == 32);
        } else {
            assert(rest =~= seq![41u8]);
        }
        assert(player_attr_ok(l[0]));
        lemma_attr_prefix(t, p, a, rest);
        lemma_stands_split(t, p, piece(a), rest);
        assert forall|j: int| 0 <= j < rest_l.len() implies player_attr_ok(#[trigger] rest_l[j]) by {
            assert(rest_l[j] == l[j + 1]);
        }
        let w = attr_word(a.0);
        let k1 = p + 1 + w.len();
        let k2 = p + 2 + w.len();
        let key = Span { start: (p + 1) as usize, end: (p + 1 + w.len()) as usize };
        let e1 = p + piece(a).len();
        let v = Span { start: k2 as usize, end: (k2 + a.1.len()) as usize };
        assert(!is_num_char(rest[0]));
        lemma_number_token(t, k2, a.1);
        let f2 = with_player_num(f, a.0, v);
        lemma_player_attrs_number(t, p, f, key, k1, k2, a.0, v, e1);
        lemma_player_attrs_list(t, e1, rest_l, f2);
        let (g, e) = player_attrs(t, e1, f2).unwrap();
        assert forall|k: int| is_player_attr(k) implies match #[trigger] list_value(l, k) {
            Some(v) => player_field_of(g, k) matches Some(s) && s.start <= s.end <= t.len() && content(t, s) == v,
            None => player_field_of(g, k) == player_field_of(f, k),
        } by {
            assert(list_value(rest_l, k) == list_value(l.drop_first(), k));
        }
        assert(attrs_text(l).len() == piece(a).len() + attrs_text(rest_l).len());
    }
}

// ---------------------------------------------------------------------
// Entries
// ---------------------------------------------------------------------

pub proof fn lemma_attrs_text_concat(l1: Seq<Attr>, l2: Seq<Attr>)
    ensures
        attrs_text(l1 + l2) == attrs_text(l1) + attrs_text(l2),
    decreases l1.len(),
{
    if l1.len() == 0 {
        assert(l1 + l2 =~= l2);
        assert(attrs_text(l1) + attrs_text(l2) =~= attrs_text(l2));
    } else {
        assert((l1 + l2).drop_first() =~= l1.drop_first() + l2);
        lemma_attrs_text_concat(l1.drop_first(), l2);
        assert((l1 + l2)[0] == l1[0]);
        assert(attrs_text(l1 + l2) =~= piece(l1[0]) + (attrs_text(l1.drop_first()) + attrs_text(l2)));
    }
}

proof fn lemma_attrs_text_single(a: Attr)
    ensures
        attrs_text(seq![a]) == piece(a),
{
    assert(seq![a].drop_first() =~= Seq::<Attr>::empty());
    assert(seq![a][0] == a);
    assert(attrs_text(Seq::<Attr>::empty()) == Seq::<u8>::empty());
    assert(attrs_text(seq![a]) == piece(a) + attrs_text(Seq::<Attr>::empty()));
    assert(attrs_text(seq![a]) =~= piece(a));
}

/// The attributes a player entry is written with.
pub open spec fn player_list(p: PlayerText) -> Seq<Attr> {
    seq![(0int, p.x@), (1int, p.y@), (2int, p.z@), (7int, p.ra@)]
}

/// The rotation attributes a brush entry is written with.
pub open spec fn rotation_list(r: Option<RotationText>) -> Seq<Attr> {
    match r {
        None => Seq::empty(),
        Some(rt) => seq![(7int, rt.ra@)] + match rt.axis {
            None => Seq::<Attr>::empty(),
            Some(a) => seq![(8int, a.x@), (9int, a.y@), (10int, a.z@)],
        },
    }
}

/// The attributes a brush entry is written with.
pub open spec fn brush_list(b: BrushText) -> Seq<Attr> {
    seq![(0int, b.x@), (1int, b.y@), (2int, b.z@), (4int, b.sx@), (5int, b.sy@), (6int, b.sz@)]
        + rotation_list(b.rotation) + seq![(11int, b.mat@)]
}

proof fn lemma_attrs_text_4(a: Attr, b: Attr, c: Attr, d: Attr)
    ensures
        attrs_text(seq![a, b, c, d]) == piece(a) + piece(b) + piece(c) + piece(d),
{
    lemma_attrs_text_single(d);
    lemma_attrs_text_concat(seq![c], seq![d]);
    lemma_attrs_text_single(c);
    assert(seq![c, d] =~= seq![c] + seq![d]);
    lemma_attrs_text_concat(seq![b], seq![c, d]);
    lemma_attrs_text_single(b);
    assert(seq![b, c, d] =~= seq![b] + seq![c, d]);
    lemma_attrs_text_concat(seq![a], seq![b, c, d]);
    lemma_attrs_text_single(a);
    assert(seq![a, b, c, d] =~= seq![a] + seq![b, c, d]);
    assert(attrs_text(seq![a, b, c, d]) =~= piece(a) + piece(b) + piece(c) + piece(d));
}

pub proof fn lemma_player_text_list(p: PlayerText)
    ensures
        player_text(p) == seq![40u8] + word_player() + attrs_text(player_list(p)) + seq![41u8],
{
    lemma_attrs_text_4((0int, p.x@), (1int, p.y@), (2int, p.z@), (7int, p.ra@));
    assert(player_text(p) =~= seq![40u8] + word_player() + attrs_text(player_list(p)) + seq![41u8]);
}

pub proof fn lemma_shape_text_list(b: BrushText)
    ensures
        shape_text(b) == seq![40u8] + kind_name(b.kind) + attrs_text(brush_list(b)) + seq![41u8],
{
    let l1 = seq![(0int, b.x@), (1int, b.y@), (2int, b.z@), (4int, b.sx@), (5int, b.sy@), (6int, b.sz@)];
    let lr = rotation_list(b.rotation);
    let lm = seq![(11int, b.mat@)];
    lemma_attrs_text_concat(l1 + lr, lm);
    lemma_attrs_text_concat(l1, lr);
    lemma_attrs_text_single((11int, b.mat@));
    assert(l1 =~= seq![(0int, b.x@), (1int, b.y@), (2int, b.z@)] + seq![(4int, b.sx@), (5int, b.sy@), (6int, b.sz@)]);
    lemma_attrs_text_concat(seq![(0int, b.x@), (1int, b.y@), (2int, b.z@)], seq![(4int, b.sx@), (5int, b.sy@), (6int, b.sz@)]);
    lemma_attrs_text_3((0int, b.x@), (1int, b.y@), (2int, b.z@));
    lemma_attrs_text_3((4int, b.sx@), (5int, b.sy@), (6int, b.sz@));
    match b.rotation {
        None => {
            assert(attrs_text(lr) =~= Seq::<u8>::empty());
        },
        Some(rt) => {
            let la: Seq<Attr> = match rt.axis {
                None => Seq::<Attr>::empty(),
                Some(a) => seq![(8int, a.x@), (9int, a.y@), (10int, a.z@)],
            };
            lemma_attrs_text_concat(seq![(7int, rt.ra@)], la);
            lemma_attrs_text_single((7int, rt.ra@));
            match rt.axis {
                None => {
                    assert(attrs_text(la) =~= Seq::<u8>::empty());
                },
                Some(a) => {
                    lemma_attrs_text_3((8int, a.x@), (9int, a.y@), (10int, a.z@));
                },
            }
            assert(attrs_text(lr) =~= rotation_text(b.rotation));
        },
    }
    assert(shape_text(b) =~= seq![40u8] + kind_name(b.kind) + attrs_text(brush_list(b)) + seq![41u8]);
}

proof fn lemma_attrs_text_3(a: Attr, b: Attr, c: Attr)
    ensures
        attrs_text(seq![a, b, c]) == piece(a) + piece(b) + piece(c),
{
    lemma_attrs_text_single(c);
    lemma_attrs_text_concat(seq![b], seq![c]);
    lemma_attrs_text_single(b);
    assert(seq![b, c] =~= seq![b] + seq![c]);
    lemma_attrs_text_concat(seq![a], seq![b, c]);
    lemma_attrs_text_single(a);
    assert(seq![a, b, c] =~= seq![a] + seq![b, c]);
    assert(attrs_text(seq![a, b, c]) =~= piece(a) + piece(b) + piece(c));
}

/// A brush text the parser reads back: a known shape, numbers where numbers
/// go, and a material name without a single quote.
pub open spec fn brush_text_ok(b: BrushText) -> bool {
    &&& b.kind < 4
    &&& forall|j: int| 0 <= j < brush_list(b).len() ==> attr_ok(#[trigger] brush_list(b)[j])
}

/// A player text the parser reads back: four numbers.
pub open spec fn player_text_ok(p: PlayerText) -> bool {
    &&& valid_number(p.x@)
    &&& valid_number(p.y@)
    &&& valid_number(p.z@)
    &&& valid_number(p.ra@)
}

proof fn lemma_shape_word_facts(k: int)
    requires
        0 <= k < 4,
    ensures
        name_ok(shape_word(k)),
        shape_word(k) != word_sub(),
        shape_index(shape_word(k)) == k,
        shape_word(k) != word_player(),
{
    let w = shape_word(k);
    assert forall|i: int| 0 <= i < w.len() implies is_ident_char(#[trigger] w[i]) by {}
    assert(w.len() != word_sub().len() || w[0] != word_sub()[0]);
    assert(w.len() != word_player().len() || w[0] != word_player()[0]);
    assert forall|j: int| 0 <= j < k implies shape_word(j) != w by {
        assert(shape_word(j).len() != w.len());
    }
    lemma_shape_index_from(w, 0, k);
}

proof fn lemma_shape_index_from(w: Seq<u8>, j: int, k: int)
    requires
        0 <= j <= k < 4,
        w == shape_word(k),
        forall|i: int| 0 <= i < k ==> shape_word(i) != w,
    ensures
        shape_index_from(w, j) == k,
    decreases k - j,
{
    if j < k {
        lemma_shape_index_from(w, j + 1, k);
    }
}

proof fn lemma_brush_entry_shape(t: Seq<u8>, p: int, kw: Span, k1: int, sh: int)
    requires
        pos_ok(t, p),
        tok_ident(t, p) == Ok::<(Span, int), ParseError>((kw, k1)),
        content(t, kw) != word_sub(),
        shape_index(content(t, kw)) == sh,
        0 <= sh < 4,
    ensures
        brush_entry(t, p) == brush_attrs(t, k1, default_fields(sh)),
{
}

/// A shape entry, after its `(`, is read back.
pub proof fn lemma_shape_entry(t: Seq<u8>, p: int, b: BrushText)
    requires
        t.len() <= usize::MAX,
        brush_text_ok(b),
        stands_at(t, p, kind_name(b.kind) + attrs_text(brush_list(b)) + seq![41u8]),
    ensures
        brush_entry(t, p) matches Ok((g, e)) && e == p + kind_name(b.kind).len() + attrs_text(
            brush_list(b),
        ).len() + 1 && fields_read(t, g, default_fields(b.kind as int), brush_list(b)),
{
    let w = kind_name(b.kind);
    let l = brush_list(b);
    lemma_shape_word_facts(b.kind as int);
    assert(kind_name(b.kind) == shape_word(b.kind as int));
    assert(w + attrs_text(l) + seq![41u8] =~= w + (attrs_text(l) + seq![41u8]));
    lemma_stands_split(t, p, w, attrs_text(l) + seq![41u8]);
    lemma_attrs_text_first(l);
    lemma_stands_at_index(t, p + w.len(), attrs_text(l) + seq![41u8], 0);
    lemma_ident_token(t, p, w);
    let kw = Span { start: p as usize, end: (p + w.len()) as usize };
    lemma_brush_entry_shape(t, p, kw, p + w.len(), b.kind as int);
    lemma_brush_attrs_list(t, p + w.len(), l, default_fields(b.kind as int));
}

proof fn lemma_brush_entry_sub(t: Seq<u8>, p: int, kw: Span, k1: int, k2: int, f: BrushFields, k3: int)
    requires
        pos_ok(t, p),
        tok_ident(t, p) == Ok::<(Span, int), ParseError>((kw, k1)),
        content(t, kw) == word_sub(),
        tok_expect(t, k1, 40) == Ok::<int, ParseError>(k2),
        brush_entry(t, k2) == Ok::<(BrushFields, int), ParseError>((f, k3)),
        tok_expect(t, k3, 41) == Ok::<int, ParseError>(k3 + 1),
    ensures
        brush_entry(t, p) == Ok::<(BrushFields, int), ParseError>((BrushFields { sub: true, ..f }, k3 + 1)),
{
}

/// A brush entry, after its `(`, is read back: a shape entry, or `sub` and a
/// shape entry in parentheses.
pub proof fn lemma_brush_entry(t: Seq<u8>, p: int, b: BrushText)
    requires
        t.len() <= usize::MAX,
        brush_text_ok(b),
        stands_at(t, p, brush_text(b).drop_first()),
    ensures
        brush_entry(t, p) matches Ok((g, e)) && e == p + brush_text(b).len() - 1 && fields_read(
            t,
            g,
            BrushFields { sub: b.sub, ..default_fields(b.kind as int) },
            brush_list(b),
        ),
{
    let l = brush_list(b);
    let inner = kind_name(b.kind) + attrs_text(l) + seq![41u8];
    lemma_shape_text_list(b);
    assert(shape_text(b) =~= seq![40u8] + inner);
    if b.sub {
        let ws = word_sub();
        let whole = ws + seq![32u8] + (seq![40u8] + inner) + seq![41u8];
        assert(brush_text(b).drop_first() =~= whole);
        lemma_stands_split(t, p, ws + seq![32u8] + (seq![40u8] + inner), seq![41u8]);
        lemma_stands_split(t, p, ws + seq![32u8], seq![40u8] + inner);
        lemma_stands_split(t, p, ws, seq![32u8]);
        lemma_stands_split(t, p + ws.len() + 1, seq![40u8], inner);
        lemma_stands_at_index(t, p + ws.len(), seq![32u8], 0);
        lemma_stands_at_index(t, p + ws.len() + 1, seq![40u8], 0);
        assert(name_ok(ws)) by {
            assert forall|i: int| 0 <= i < ws.len() implies is_ident_char(#[trigger] ws[i]) by {}
        }
        lemma_ident_token(t, p, ws);
        let kw = Span { start: p as usize, end: (p + 3) as usize };
        let k1 = p + 3;
        assert(ws_end(t, k1 + 1) == k1 + 1);
        assert(ws_end(t, k1) == k1 + 1);
        let k2 = p + 5;
        assert(tok_expect(t, k1, 40) == Ok::<int, ParseError>(k2));
        lemma_shape_entry(t, k2, b);
        let (f, k3) = brush_entry(t, k2).unwrap();
        let close = p + ws.len() + 1 + 1 + inner.len();
        assert(k3 == close);
        lemma_stands_at_index(t, close, seq![41u8], 0);
        assert(ws_end(t, k3) == k3);
        lemma_brush_entry_sub(t, p, kw, k1, k2, f, k3);
        assert(brush_text(b).len() == whole.len() + 1);
    } else {
        assert(brush_text(b).drop_first() =~= inner);
        lemma_shape_entry(t, p, b);
    }
}

// ---------------------------------------------------------------------
// The saved text
// ---------------------------------------------------------------------

/// The kept text of an entry as saved: without one leading newline.
pub open spec fn kept(c: Option<Seq<u8>>) -> Seq<u8> {
    match c {
        Some(c) => strip_newline(c),
        None => Seq::empty(),
    }
}

/// A brush entry as saved after another entry: a newline, the kept text, the entry.
pub open spec fn entry_text(c: Option<Seq<u8>>, x: Seq<u8>) -> Seq<u8> {
    seq![10u8] + kept(c) + x
}

/// The brush entries as saved, first to last.
pub open spec fn entries_from(cs: Seq<Option<Seq<u8>>>, xs: Seq<Seq<u8>>) -> Seq<u8>
    decreases xs.len(),
{
    if xs.len() == 0 {
        Seq::empty()
    } else {
        entry_text(cs[0], xs[0]) + entries_from(cs.drop_first(), xs.drop_first())
    }
}

proof fn lemma_entries_from_snoc(cs: Seq<Option<Seq<u8>>>, xs: Seq<Seq<u8>>)
    requires
        cs.len() == xs.len(),
        xs.len() > 0,
    ensures
        entries_from(cs, xs) == entries_from(cs.drop_last(), xs.drop_last()) + entry_text(cs.last(), xs.last()),
    decreases xs.len(),
{
    if xs.len() == 1 {
        assert(xs.drop_first().len() == 0);
        assert(xs.drop_last().len() == 0);
        assert(entries_from(cs.drop_first(), xs.drop_first()) == Seq::<u8>::empty());
        assert(entries_from(cs, xs) == entry_text(cs[0], xs[0]) + entries_from(cs.drop_first(), xs.drop_first()));
        assert(entries_from(cs, xs) =~= entry_text(cs[0], xs[0]));
        assert(entries_from(cs.drop_last(), xs.drop_last()) =~= Seq::<u8>::empty());
        assert(entries_from(cs, xs) =~= Seq::<u8>::empty() + entry_text(cs.last(), xs.last()));
    } else {
        lemma_entries_from_snoc(cs.drop_first(), xs.drop_first());
        assert(cs.drop_first().drop_last() =~= cs.drop_last().drop_first());
        assert(xs.drop_first().drop_last() =~= xs.drop_last().drop_first());
        assert(entries_from(cs, xs) =~= entries_from(cs.drop_last(), xs.drop_last()) + entry_text(
            cs.last(),
            xs.last(),
        ));
    }
}

/// After a text that does not end with a newline, the saved brush entries
/// are the entries as written by `entries_from`.
proof fn lemma_saved_entries(out: Seq<u8>, cs: Seq<Option<Seq<u8>>>, xs: Seq<Seq<u8>>)
    requires
        out.len() > 0,
        out.last() != 10,
        cs.len() == xs.len(),
        forall|i: int| 0 <= i < xs.len() ==> #[trigger] xs[i].len() > 0 && xs[i].last() != 10,
    ensures
        saved_entries(out, cs, xs) == out + entries_from(cs, xs),
        saved_entries(out, cs, xs).len() > 0,
        saved_entries(out, cs, xs).last() != 10,
    decreases xs.len(),
{
    if xs.len() == 0 {
        assert(out + entries_from(cs, xs) =~= out);
    } else {
        let s0 = saved_entries(out, cs.drop_last(), xs.drop_last());
        assert forall|i: int| 0 <= i < xs.drop_last().len() implies #[trigger] xs.drop_last()[i].len() > 0
            && xs.drop_last()[i].last() != 10 by {
            assert(xs.drop_last()[i] == xs[i]);
        }
        lemma_saved_entries(out, cs.drop_last(), xs.drop_last());
        lemma_entries_from_snoc(cs, xs);
        let x = xs.last();
        assert(xs[xs.len() - 1].len() > 0);
        assert(ensure_newline(s0) == s0.push(10));
        assert(append_entry(s0, cs.last(), x) =~= out + entries_from(cs, xs));
        assert(append_entry(s0, cs.last(), x).last() == x.last());
    }
}

/// The whole saved text: header, player entry, brush entries, newline.
proof fn lemma_saved_map_shape(header: Seq<u8>, pt: Seq<u8>, cs: Seq<Option<Seq<u8>>>, xs: Seq<Seq<u8>>)
    requires
        pt.len() > 0,
        pt.last() != 10,
        cs.len() == xs.len(),
        forall|i: int| 0 <= i < xs.len() ==> #[trigger] xs[i].len() > 0 && xs[i].last() != 10,
    ensures
        saved_map(header, pt, cs, xs) == header + pt + entries_from(cs, xs) + seq![10u8],
{
    let out = header + pt;
    assert(out.last() == pt.last());
    lemma_saved_entries(out, cs, xs);
    assert(saved_map(header, pt, cs, xs) =~= header + pt + entries_from(cs, xs) + seq![10u8]);
}

// ---------------------------------------------------------------------
// Parsing the saved text
// ---------------------------------------------------------------------

/// An item read back from a saved brush entry: its kept text comes back
/// after a newline, and its fields hold the texts it was written with.
pub open spec fn item_read(t: Seq<u8>, it: MapItem, c: Option<Seq<u8>>, b: BrushText) -> bool {
    &&& it.comment matches Some(s) && s.start <= s.end <= t.len() && content(t, s) == seq![10u8] + kept(c)
    &&& it.entry matches MapEntry::Brush(bf) && fields_read(
        t,
        bf,
        BrushFields { sub: b.sub, ..default_fields(b.kind as int) },
        brush_list(b),
    )
}

proof fn lemma_map_items_brush_step(t: Seq<u8>, p: int, hs: Span, acc: Seq<MapItem>, q: int, bf: BrushFields, k3: int)
    requires
        pos_ok(t, p),
        ws_end(t, p) == q,
        q < t.len(),
        tok_expect(t, q, 40) == Ok::<int, ParseError>(q + 1),
        tok_player(t, q + 1) is None,
        brush_entry(t, q + 1) == Ok::<(BrushFields, int), ParseError>((bf, k3)),
    ensures
        map_items(t, p, Some(hs), acc) == map_items(
            t,
            k3,
            Some(hs),
            acc.push(MapItem { comment: Some(Span { start: p as usize, end: q as usize }), entry: MapEntry::Brush(bf) }),
        ),
{
}

proof fn lemma_map_items_end(t: Seq<u8>, p: int, hs: Span, acc: Seq<MapItem>)
    requires
        pos_ok(t, p),
        ws_end(t, p) >= t.len(),
    ensures
        map_items(t, p, Some(hs), acc) == Ok::<(Span, Seq<MapItem>), ParseError>((hs, acc)),
{
}

/// The second byte of a brush entry: a lowercase letter other than `p`.
proof fn lemma_brush_text_start(b: BrushText)
    requires
        b.kind < 4,
    ensures
        brush_text(b).len() > 2,
        brush_text(b)[0] == 40,
        brush_text(b)[1] == 98 || brush_text(b)[1] == 99 || brush_text(b)[1] == 115,
        brush_text(b).last() == 41,
{
    lemma_shape_text_list(b);
    let w = kind_name(b.kind);
    assert(w == shape_word(b.kind as int));
    let st = shape_text(b);
    assert(st[0] == 40);
    assert(st[1] == w[0]);
    if b.sub {
        assert(brush_text(b)[1] == 115);
    }
}

/// The brush entries after the player entry, and the final newline, are
/// read back one by one.
#[verifier::rlimit(60)]
proof fn lemma_map_items_entries(t: Seq<u8>, p: int, hs: Span, acc: Seq<MapItem>, cs: Seq<Option<Seq<u8>>>, bs: Seq<BrushText>)
    requires
        t.len() <= usize::MAX,
        cs.len() == bs.len(),
        forall|i: int| 0 <= i < bs.len() ==> brush_text_ok(#[trigger] bs[i]),
        forall|i: int| 0 <= i < cs.len() ==> (#[trigger] cs[i] matches Some(c) ==> is_trivia(c)),
        stands_at(t, p, entries_from(cs, brush_texts(bs)) + seq![10u8]),
        p + entries_from(cs, brush_texts(bs)).len() + 1 == t.len(),
    ensures
        map_items(t, p, Some(hs), acc) matches Ok((h, items)) && h == hs && items.len() == acc.len()
            + bs.len() && (forall|i: int| 0 <= i < acc.len() ==> items[i] == acc[i]) && (forall|i: int|
            0 <= i < bs.len() ==> item_read(t, #[trigger] items[acc.len() + i], cs[i], bs[i])),
    decreases bs.len(),
{
    let xs = brush_texts(bs);
    if bs.len() == 0 {
        assert(entries_from(cs, xs) + seq![10u8] =~= seq![10u8]);
        lemma_stands_at_index(t, p, seq![10u8], 0);
        assert(ws_end(t, p + 1) == p + 1);
        lemma_map_items_end(t, p, hs, acc);
    } else {
        let b = bs[0];
        let x = brush_text(b);
        let lead = seq![10u8] + kept(cs[0]);
        let e = entry_text(cs[0], x);
        let rest_cs = cs.drop_first();
        let rest_bs = bs.drop_first();
        assert(xs.drop_first() =~= brush_texts(rest_bs));
        assert(xs[0] == x);
        let rest = entries_from(rest_cs, brush_texts(rest_bs)) + seq![10u8];
        assert(entries_from(cs, xs) + seq![10u8] =~= e + rest);
        lemma_stands_split(t, p, e, rest);
        assert(e =~= lead + x);
        lemma_stands_split(t, p, lead, x);
        // the kept text and its newline are trivia
        match cs[0] {
            Some(c) => {
                lemma_newline_strip_trivia(c);
            },
            None => {
                assert(lead =~= seq![10u8]);
            },
        }
        let q = p + lead.len();
        lemma_ws_through(t, p, lead, 0);
        assert(brush_text_ok(b));
        lemma_brush_text_start(b);
        lemma_stands_at_index(t, q, x, 0);
        lemma_stands_at_index(t, q, x, 1);
        lemma_ws_stops(t, q);
        assert(tok_expect(t, q, 40) == Ok::<int, ParseError>(q + 1));
        lemma_ws_stops(t, q + 1);
        if q + 1 + 6 <= t.len() {
            assert(t.subrange(q + 1, q + 7)[0] == t[q + 1]);
            assert(t.subrange(q + 1, q + 7) != word_player());
        }
        assert(tok_player(t, q + 1) is None);
        assert(x.drop_first() =~= x.subrange(1, x.len() as int));
        assert(stands_at(t, q + 1, x.drop_first())) by {
            assert(t.subrange(q + 1, q + 1 + x.drop_first().len()) =~= x.drop_first()) by {
                assert forall|j: int| 0 <= j < x.drop_first().len() implies #[trigger] t.subrange(
                    q + 1,
                    q + 1 + x.drop_first().len(),
                )[j] == x.drop_first()[j] by {
                    lemma_stands_at_index(t, q, x, j + 1);
                }
            }
        }
        lemma_brush_entry(t, q + 1, b);
        let (bf, k3) = brush_entry(t, q + 1).unwrap();
        assert(k3 == p + e.len());
        let item = MapItem { comment: Some(Span { start: p as usize, end: q as usize }), entry: MapEntry::Brush(bf) };
        lemma_map_items_brush_step(t, p, hs, acc, q, bf, k3);
        assert forall|i: int| 0 <= i < rest_bs.len() implies brush_text_ok(#[trigger] rest_bs[i]) by {
            assert(rest_bs[i] == bs[i + 1]);
        }
        assert forall|i: int| 0 <= i < rest_cs.len() implies (#[trigger] rest_cs[i] matches Some(c) ==> is_trivia(c)) by {
            assert(rest_cs[i] == cs[i + 1]);
        }
        lemma_map_items_entries(t, k3, hs, acc.push(item), rest_cs, rest_bs);
        let (h, items) = map_items(t, k3, Some(hs), acc.push(item)).unwrap();
        assert(content(t, Span { start: p as usize, end: q as usize }) == lead);
        assert(items[acc.len() as int] == item);
        assert forall|i: int| 0 <= i < bs.len() implies item_read(t, #[trigger] items[acc.len() + i], cs[i], bs[i]) by {
            if i > 0 {
                assert(items[acc.push(item).len() + (i - 1)] == items[acc.len() + i]);
                assert(rest_cs[i - 1] == cs[i]);
                assert(rest_bs[i - 1] == bs[i]);
            }
        }
        assert forall|i: int| 0 <= i < acc.len() implies items[i] == acc[i] by {
            assert(acc.push(item)[i] == acc[i]);
        }
    }
}

proof fn lemma_map_items_player_first(t: Seq<u8>, q: int, k2: int, pf: PlayerFields, k3: int)
    requires
        pos_ok(t, 0),
        ws_end(t, 0) == q,
        q < t.len(),
        tok_expect(t, q, 40) == Ok::<int, ParseError>(q + 1),
        tok_player(t, q + 1) == Some(k2),
        player_attrs(t, k2, empty_player()) == Ok::<(PlayerFields, int), ParseError>((pf, k3)),
    ensures
        map_items(t, 0, None, Seq::empty()) == map_items(
            t,
            k3,
            Some(Span { start: 0, end: q as usize }),
            seq![MapItem { comment: None, entry: MapEntry::Player(pf) }],
        ),
{
    assert(Seq::<MapItem>::empty().push(MapItem { comment: None, entry: MapEntry::Player(pf) })
        =~= seq![MapItem { comment: None, entry: MapEntry::Player(pf) }]);
}

/// The value that list `l` gives for key `l[j].0`, when no other element has that key.
proof fn lemma_list_value_at(l: Seq<Attr>, j: int)
    requires
        0 <= j < l.len(),
        forall|i: int| 0 <= i < l.len() && i != j ==> #[trigger] l[i].0 != l[j].0,
    ensures
        list_value(l, l[j].0) == Some(l[j].1),
    decreases l.len(),
{
    let k = l[j].0;
    if j == 0 {
        lemma_list_value_absent(l.drop_first(), k);
    } else {
        assert forall|i: int| 0 <= i < l.drop_first().len() && i != j - 1 implies #[trigger] l.drop_first()[i].0
            != l.drop_first()[j - 1].0 by {
            assert(l.drop_first()[i] == l[i + 1]);
        }
        lemma_list_value_at(l.drop_first(), j - 1);
    }
}

proof fn lemma_list_value_absent(l: Seq<Attr>, k: int)
    requires
        forall|i: int| 0 <= i < l.len() ==> #[trigger] l[i].0 != k,
    ensures
        list_value(l, k) is None,
    decreases l.len(),
{
    if l.len() > 0 {
        assert forall|i: int| 0 <= i < l.drop_first().len() implies #[trigger] l.drop_first()[i].0 != k by {
            assert(l.drop_first()[i] == l[i + 1]);
        }
        lemma_list_value_absent(l.drop_first(), k);
    }
}

/// The span `s` holds the text `v`.
pub open spec fn span_holds(t: Seq<u8>, s: Option<Span>, v: Seq<u8>) -> bool {
    s matches Some(sp) && sp.start <= sp.end <= t.len() && content(t, sp) == v
}

/// A player entry read back: each field holds the number it was written with.
pub open spec fn player_read(t: Seq<u8>, pf: PlayerFields, p: PlayerText) -> bool {
    &&& span_holds(t, pf.x, p.x@)
    &&& span_holds(t, pf.y, p.y@)
    &&& span_holds(t, pf.z, p.z@)
    &&& span_holds(t, pf.ra, p.ra@)
}

proof fn lemma_player_read(t: Seq<u8>, pf: PlayerFields, p: PlayerText)
    requires
        player_fields_read(t, pf, empty_player(), player_list(p)),
    ensures
        player_read(t, pf, p),
{
    let l = player_list(p);
    lemma_list_value_at(l, 0);
    lemma_list_value_at(l, 1);
    lemma_list_value_at(l, 2);
    lemma_list_value_at(l, 3);
    assert(is_player_attr(0int) && is_player_attr(1int) && is_player_attr(2int) && is_player_attr(7int));
    assert(list_value(l, 0) == Some(p.x@));
    assert(list_value(l, 1) == Some(p.y@));
    assert(list_value(l, 2) == Some(p.z@));
    assert(list_value(l, 7) == Some(p.ra@));
}

/// A brush entry read back: it subtracts and has the shape it was written
/// with, each number field holds the text it was written with, the fields
/// it was not written with are absent, and the material holds its name.
pub open spec fn brush_read(t: Seq<u8>, bf: BrushFields, b: BrushText) -> bool {
    &&& bf.sub == b.sub
    &&& bf.kind == b.kind
    &&& span_holds(t, bf.x, b.x@)
    &&& span_holds(t, bf.y, b.y@)
    &&& span_holds(t, bf.z, b.z@)
    &&& bf.s is None
    &&& span_holds(t, bf.sx, b.sx@)
    &&& span_holds(t, bf.sy, b.sy@)
    &&& span_holds(t, bf.sz, b.sz@)
    &&& match b.rotation {
        None => bf.ra is None && bf.rx is None && bf.ry is None && bf.rz is None,
        Some(rt) => span_holds(t, bf.ra, rt.ra@) && match rt.axis {
            None => bf.rx is None && bf.ry is None && bf.rz is None,
            Some(a) => span_holds(t, bf.rx, a.x@) && span_holds(t, bf.ry, a.y@) && span_holds(
                t,
                bf.rz,
                a.z@,
            ),
        },
    }
    &&& span_holds(t, bf.mat, b.mat@)
}

proof fn lemma_brush_read(t: Seq<u8>, bf: BrushFields, b: BrushText)
    requires
        fields_read(t, bf, BrushFields { sub: b.sub, ..default_fields(b.kind as int) }, brush_list(b)),
    ensures
        brush_read(t, bf, b),
{
    let l = brush_list(b);
    let base = seq![(0int, b.x@), (1int, b.y@), (2int, b.z@), (4int, b.sx@), (5int, b.sy@), (6int, b.sz@)];
    match b.rotation {
        None => {
            assert(l =~= base + seq![(11int, b.mat@)]);
        },
        Some(rt) => match rt.axis {
            None => {
                assert(l =~= base + seq![(7int, rt.ra@), (11int, b.mat@)]);
            },
            Some(a) => {
                assert(l =~= base + seq![(7int, rt.ra@), (8int, a.x@), (9int, a.y@), (10int, a.z@), (11int, b.mat@)]);
            },
        },
    }
    assert forall|j: int| 0 <= j < l.len() implies #[trigger] l[j].0 == if j < 6 {
        if j < 3 { j } else { j + 1 }
    } else if j == l.len() - 1 {
        11
    } else {
        j + 1
    } by {}
    let n = l.len() as int;
    lemma_list_value_at(l, 0);
    lemma_list_value_at(l, 1);
    lemma_list_value_at(l, 2);
    lemma_list_value_at(l, 3);
    lemma_list_value_at(l, 4);
    lemma_list_value_at(l, 5);
    lemma_list_value_at(l, n - 1);
    lemma_list_value_absent(l, 3);
    assert(list_value(l, 0) == Some(b.x@));
    assert(list_value(l, 1) == Some(b.y@));
    assert(list_value(l, 2) == Some(b.z@));
    assert(list_value(l, 4) == Some(b.sx@));
    assert(list_value(l, 5) == Some(b.sy@));
    assert(list_value(l, 6) == Some(b.sz@));
    assert(list_value(l, 11) == Some(b.mat@));
    assert(list_value(l, 3) is None);
    match b.rotation {
        None => {
            lemma_list_value_absent(l, 7);
            lemma_list_value_absent(l, 8);
            lemma_list_value_absent(l, 9);
            lemma_list_value_absent(l, 10);
            assert(list_value(l, 7) is None);
            assert(list_value(l, 8) is None);
            assert(list_value(l, 9) is None);
            assert(list_value(l, 10) is None);
        },
        Some(rt) => {
            lemma_list_value_at(l, 6);
            assert(list_value(l, 7) == Some(rt.ra@));
            match rt.axis {
                None => {
                    lemma_list_value_absent(l, 8);
                    lemma_list_value_absent(l, 9);
                    lemma_list_value_absent(l, 10);
                    assert(list_value(l, 8) is None);
                    assert(list_value(l, 9) is None);
                    assert(list_value(l, 10) is None);
                },
                Some(a) => {
                    lemma_list_value_at(l, 7);
                    lemma_list_value_at(l, 8);
                    lemma_list_value_at(l, 9);
                    assert(list_value(l, 8) == Some(a.x@));
                    assert(list_value(l, 9) == Some(a.y@));
                    assert(list_value(l, 10) == Some(a.z@));
                },
            }
        },
    }
}

// ---------------------------------------------------------------------
// The law
// ---------------------------------------------------------------------

/// The header and the player entry at the start of a saved text are read back.
#[verifier::rlimit(40)]
proof fn lemma_player_head(t: Seq<u8>, header: Seq<u8>, p: PlayerText)
    requires
        t.len() <= usize::MAX,
        is_trivia(header),
        player_text_ok(p),
        stands_at(t, 0, header + player_text(p)),
    ensures
        player_attrs(t, header.len() + 7int, empty_player()) matches Ok((pf, k3)) && k3 == header.len()
            + player_text(p).len() && player_read(t, pf, p) && map_items(t, 0, None, Seq::empty())
            == map_items(
            t,
            k3,
            Some(Span { start: 0, end: header.len() as usize }),
            seq![MapItem { comment: None, entry: MapEntry::Player(pf) }],
        ),
        content(t, Span { start: 0, end: header.len() as usize }) == header,
{
    let pt = player_text(p);
    let pl = player_list(p);
    lemma_player_text_list(p);
    lemma_stands_split(t, 0, header, pt);
    let q = header.len() as int;
    // The header is trivia up to the player entry's `(`.
    lemma_ws_through(t, 0, header, 0);
    lemma_stands_at_index(t, q, pt, 0);
    lemma_ws_stops(t, q);
    assert(tok_expect(t, q, 40) == Ok::<int, ParseError>(q + 1));
    // The keyword `player`, then the attributes.
    let attrs = attrs_text(pl) + seq![41u8];
    assert(pt =~= seq![40u8] + (word_player() + attrs));
    lemma_stands_split(t, q, seq![40u8], word_player() + attrs);
    lemma_stands_split(t, q + 1, word_player(), attrs);
    lemma_stands_at_index(t, q + 1, word_player(), 0);
    lemma_ws_stops(t, q + 1);
    lemma_attrs_text_first(pl);
    lemma_stands_at_index(t, q + 7, attrs, 0);
    assert(t.subrange(q + 1, q + 7) == word_player());
    assert(tok_player(t, q + 1) == Some(q + 7));
    assert forall|j: int| 0 <= j < pl.len() implies player_attr_ok(#[trigger] pl[j]) by {}
    lemma_player_attrs_list(t, q + 7, pl, empty_player());
    let (pf, k3) = player_attrs(t, q + 7, empty_player()).unwrap();
    assert(k3 == q + pt.len());
    lemma_map_items_player_first(t, q, q + 7, pf, k3);
    lemma_player_read(t, pf, p);
}

/// Law: a saved map reads back. Parsing the text that `save_map_text` writes
/// for a header of trivia, a player entry and brush entries (whose kept
/// texts are trivia, whose numbers are numbers and whose material names
/// have no single quote) succeeds; the header is read back as it was; the
/// player comes first with the numbers it was written with; then come the
/// brushes in order, each with its fields as written and its kept text
/// after one newline (the newline the saved text puts before every entry).
/// In particular the saved text starts with the header.
pub proof fn law_saved_map_reads_back(header: Seq<u8>, p: PlayerText, comments: Seq<Option<Seq<u8>>>, bs: Seq<BrushText>)
    requires
        is_trivia(header),
        player_text_ok(p),
        comments.len() == bs.len(),
        forall|i: int| 0 <= i < bs.len() ==> brush_text_ok(#[trigger] bs[i]),
        forall|i: int| 0 <= i < comments.len() ==> (#[trigger] comments[i] matches Some(c) ==> is_trivia(c)),
        saved_map(header, player_text(p), comments, brush_texts(bs)).len() <= usize::MAX,
    ensures
        ({
            let t = saved_map(header, player_text(p), comments, brush_texts(bs));
            &&& parse_map_spec(t) matches Ok((h, items))
            &&& h.start <= h.end <= t.len() && content(t, h) == header
            &&& h.start == 0 && h.end == header.len()
            &&& items.len() == bs.len() + 1
            &&& items[0].comment is None
            &&& items[0].entry matches MapEntry::Player(pf) && player_read(t, pf, p)
            &&& forall|i: int|
                0 <= i < bs.len() ==> {
                    &&& #[trigger] items[i + 1].comment matches Some(s) && s.start <= s.end <= t.len()
                        && content(t, s) == seq![10u8] + kept(comments[i])
                    &&& items[i + 1].entry matches MapEntry::Brush(bf) && brush_read(t, bf, bs[i])
                }
        }),
{
    let pt = player_text(p);
    let xs = brush_texts(bs);
    let t = saved_map(header, pt, comments, xs);
    lemma_player_text_list(p);
    assert(pt.last() == 41);
    assert forall|i: int| 0 <= i < xs.len() implies #[trigger] xs[i].len() > 0 && xs[i].last() != 10 by {
        assert(brush_text_ok(bs[i]));
        lemma_brush_text_start(bs[i]);
    }
    lemma_saved_map_shape(header, pt, comments, xs);
    let ents = entries_from(comments, xs) + seq![10u8];
    assert(t =~= (header + pt) + ents);
    assert(stands_at(t, 0, (header + pt) + ents)) by {
        assert(t.subrange(0, t.len() as int) =~= t);
    }
    lemma_stands_split(t, 0, header + pt, ents);
    lemma_player_head(t, header, p);
    let q = header.len() as int;
    let (pf, k3) = player_attrs(t, q + 7, empty_player()).unwrap();
    let hs = Span { start: 0, end: q as usize };
    let acc = seq![MapItem { comment: None, entry: MapEntry::Player(pf) }];
    lemma_map_items_entries(t, k3, hs, acc, comments, bs);
    let (h, items) = map_items(t, k3, Some(hs), acc).unwrap();
    assert(items[0] == acc[0]);
    assert forall|i: int| 0 <= i < bs.len() implies {
        &&& #[trigger] items[i + 1].comment matches Some(s) && s.start <= s.end <= t.len() && content(t, s)
            == seq![10u8] + kept(comments[i])
        &&& items[i + 1].entry matches MapEntry::Brush(bf) && brush_read(t, bf, bs[i])
    } by {
        assert(item_read(t, items[acc.len() + i], comments[i], bs[i]));
        if let MapEntry::Brush(bf) = items[i + 1].entry {
            lemma_brush_read(t, bf, bs[i]);
        }
    }
}

// ---------------------------------------------------------------------
// What a parse keeps
// ---------------------------------------------------------------------

/// The text that whitespace skipping runs over, when it stops before the
/// end, is trivia.
proof fn lemma_skipped_is_trivia(t: Seq<u8>, i: int, q: int)
    requires
        0 <= i <= q < t.len(),
    ensures
        ws_end(t, i) == q ==> trivia_from(t.subrange(i, q), 0),
        comment_end(t, i) == q ==> comment_trivia(t.subrange(i, q), 0),
    decreases t.len() - i,
{
    lemma_ws_bounds(t, i);
    if i < q {
        lemma_skipped_is_trivia(t, i + 1, q);
        let n = t.subrange(i, q);
        let c = t.subrange(i + 1, q);
        assert forall|j: int| 0 <= j < c.len() implies #[trigger] c[j] == n[j + 1] by {}
        lemma_trivia_suffix(n, c, 0);
        assert(n[0] == t[i]);
    } else {
        if comment_end(t, i) == q {
            // a comment open at the stop position would run on
            assert(t[i] != 10 ==> comment_end(t, i) == comment_end(t, i + 1));
            lemma_ws_bounds(t, i + 1);
        }
    }
}

/// Everything a parse keeps between entries is trivia.
pub open spec fn kept_trivia(t: Seq<u8>, items: Seq<MapItem>) -> bool {
    forall|i: int|
        0 <= i < items.len() ==> (#[trigger] items[i].comment matches Some(s) ==> s.start <= s.end
            <= t.len() && is_trivia(content(t, s)))
}

proof fn lemma_map_items_trivia(t: Seq<u8>, p: int, header: Option<Span>, acc: Seq<MapItem>)
    requires
        header matches Some(h) ==> h.start <= h.end <= t.len() && is_trivia(content(t, h)),
        kept_trivia(t, acc),
    ensures
        map_items(t, p, header, acc) matches Ok((h, items)) ==> h.start <= h.end <= t.len() && is_trivia(
            content(t, h),
        ) && kept_trivia(t, items),
    decreases t.len() - p,
{
    if pos_ok(t, p) {
        let q = ws_end(t, p);
        lemma_ws_bounds(t, p);
        if q >= t.len() {
            if header is None {
                assert(content(t, Span { start: 0, end: 0 }) =~= Seq::<u8>::empty());
            }
        } else {
            lemma_skipped_is_trivia(t, p, q);
            let leading = Span { start: p as usize, end: q as usize };
            assert(content(t, leading) == t.subrange(p, q));
            let new_header = match header {
                Some(h) => h,
                None => leading,
            };
            lemma_tok_bounds(t, q, 40);
            if let Ok(k1) = tok_expect(t, q, 40) {
                lemma_tok_bounds(t, k1, 40);
                match tok_player(t, k1) {
                    Some(k2) => {
                        lemma_player_attrs_bounds(t, k2, empty_player());
                        if let Ok((pf, k3)) = player_attrs(t, k2, empty_player()) {
                            let item = MapItem { comment: None, entry: MapEntry::Player(pf) };
                            assert(kept_trivia(t, acc.push(item))) by {
                                assert forall|i: int| 0 <= i < acc.push(item).len() implies (
                                #[trigger] acc.push(item)[i].comment matches Some(s) ==> s.start <= s.end
                                    <= t.len() && is_trivia(content(t, s))) by {
                                    if i < acc.len() {
                                        assert(acc.push(item)[i] == acc[i]);
                                    }
                                }
                            }
                            lemma_map_items_trivia(t, k3, Some(new_header), acc.push(item));
                        }
                    },
                    None => {
                        lemma_brush_entry_bounds(t, k1);
                        if let Ok((bf, k3)) = brush_entry(t, k1) {
                            let item = MapItem {
                                comment: if header is Some {
                                    Some(leading)
                                } else {
                                    None
                                },
                                entry: MapEntry::Brush(bf),
                            };
                            assert(kept_trivia(t, acc.push(item))) by {
                                assert forall|i: int| 0 <= i < acc.push(item).len() implies (
                                #[trigger] acc.push(item)[i].comment matches Some(s) ==> s.start <= s.end
                                    <= t.len() && is_trivia(content(t, s))) by {
                                    if i < acc.len() {
                                        assert(acc.push(item)[i] == acc[i]);
                                    }
                                }
                            }
                            lemma_map_items_trivia(t, k3, Some(new_header), acc.push(item));
                        }
                    },
                }
            }
        }
    }
}

/// Law: what a parse keeps is trivia: the header, and the text before each
/// brush entry. So a parsed map meets what `law_saved_map_reads_back` asks
/// of the texts it keeps.
pub proof fn law_parse_keeps_trivia(t: Seq<u8>)
    ensures
        parse_map_spec(t) matches Ok((h, items)) ==> h.start <= h.end <= t.len() && is_trivia(content(t, h))
            && kept_trivia(t, items),
{
    lemma_map_items_trivia(t, 0, None, Seq::empty());
}

// ---------------------------------------------------------------------
// A loaded world keeps the texts of its entries
// ---------------------------------------------------------------------

/// The views of the kept texts of loaded brushes, in order.
pub open spec fn loaded_texts(items: Seq<LoadedBrush>) -> Seq<Option<Seq<u8>>> {
    Seq::new(
        items.len(),
        |i: int|
            match items[i].comment {
                Some(c) => Some(c@),
                None => None,
            },
    )
}

proof fn lemma_active_all(n: int)
    requires
        0 <= n <= MAX_BRUSHES,
    ensures
        active_upto(Seq::empty(), n).len() == n,
        forall|i: int| 0 <= i < n ==> #[trigger] active_upto(Seq::empty(), n)[i] == i as u16,
    decreases n,
{
    if n > 0 {
        lemma_active_all(n - 1);
        let p = active_upto(Seq::<u16>::empty(), n - 1);
        assert(!Seq::<u16>::empty().contains((n - 1) as u16));
        assert(active_upto(Seq::empty(), n) == p.push((n - 1) as u16));
    }
}

proof fn lemma_loaded_comments(items: Seq<LoadedBrush>, n: int)
    requires
        0 <= n <= items.len(),
        n <= MAX_BRUSHES,
    ensures
        forall|id: u16|
            #![trigger loaded_comments(items, n).contains_key(id)]
            loaded_comments(items, n).contains_key(id) <==> ((id as int) < n && items[id as int].comment is Some),
        forall|i: int|
            0 <= i < n && items[i].comment is Some ==> loaded_comments(items, n)[i as u16]
                == #[trigger] items[i].comment->0,
    decreases n,
{
    if n > 0 {
        lemma_loaded_comments(items, n - 1);
        assert(loaded_id(n - 1) == (n - 1) as u16);
        assert forall|i: int|
            0 <= i < n && items[i].comment is Some implies loaded_comments(items, n)[i as u16]
            == #[trigger] items[i].comment->0 by {
            assert((i as u16) as int == i);
            assert(((n - 1) as u16) as int == n - 1);
        }
        assert forall|id: u16| loaded_comments(items, n).contains_key(id) <==> ((id as int) < n
            && items[id as int].comment is Some) by {
            assert(((n - 1) as u16) as int == n - 1);
            let m = loaded_comments(items, n - 1);
            assert(m.contains_key(id) <==> ((id as int) < n - 1 && items[id as int].comment is Some));
            if id as int == n - 1 {
                assert(id == (n - 1) as u16);
            } else {
                assert(id != (n - 1) as u16);
            }
        }
    }
}

/// Law: a world built from loaded brushes (as `build_world` answers it)
/// has each brush in the slot of its place in the map, and keeps for each
/// brush in use the text that was kept before its entry; so saving it
/// writes those texts back in the order of the entries.
pub proof fn law_loaded_world_keeps_texts(items: Seq<LoadedBrush>, w: World)
    requires
        items.len() <= MAX_BRUSHES,
        w.brushes_view() == loaded_slots(items),
        w.free_view().len() == 0,
        w.comments@ == loaded_comments(items, items.len() as int),
    ensures
        w.active().len() == items.len(),
        forall|i: int| 0 <= i < items.len() ==> #[trigger] w.active()[i] == i as u16,
        world_comments(w) == loaded_texts(items),
{
    let n = items.len() as int;
    assert(w.brushes_view().len() == n);
    assert(w.free_view() =~= Seq::<u16>::empty());
    lemma_active_all(n);
    lemma_loaded_comments(items, n);
    assert forall|i: int| 0 <= i < n implies #[trigger] world_comments(w)[i] == loaded_texts(items)[i] by {
        assert(w.active()[i] == i as u16);
        assert(((i as u16) as int) == i);
    }
    assert(world_comments(w) =~= loaded_texts(items));
}

} // verus!
