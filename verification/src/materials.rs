//! The material registry: texture names in their canonical order, texture
//! preparation, specular strength by name, and lookups between names and ids.
use vstd::prelude::*;
use vstd::arithmetic::div_mod::lemma_small_mod;
use vstd::multiset::Multiset;
use crate::texture::{PixelFormat, to_rgba, tile_texture, tiled_byte, rgb_as_rgba};

verus! {

/// Side of the square RGBA layer every material texture is tiled to.
pub const LAYER_SIZE: u32 = 1024;

// ---------------------------------------------------------------------
// Byte strings
// ---------------------------------------------------------------------

/// `a` sorts before or equal to `b` byte by byte (the order of `str`).
pub open spec fn lex_le(a: Seq<u8>, b: Seq<u8>) -> bool
    decreases a.len(),
{
    if a.len() == 0 {
        true
    } else if b.len() == 0 {
        false
    } else if a[0] != b[0] {
        a[0] < b[0]
    } else {
        lex_le(a.drop_first(), b.drop_first())
    }
}

pub open spec fn is_prefix(p: Seq<u8>, s: Seq<u8>) -> bool {
    p.len() <= s.len() && s.subrange(0, p.len() as int) == p
}

/// `p` occurs in `s` at position `i`.
pub open spec fn occurs_at(s: Seq<u8>, p: Seq<u8>, i: int) -> bool {
    0 <= i && i + p.len() <= s.len() && s.subrange(i, i + p.len()) == p
}

pub open spec fn contains_bytes(s: Seq<u8>, p: Seq<u8>) -> bool {
    exists|i: int| #[trigger] occurs_at(s, p, i)
}

/// `a` and `b` first differ at `i`, where `a` has the smaller byte.
pub open spec fn smaller_at(a: Seq<u8>, b: Seq<u8>, i: int) -> bool {
    0 <= i < a.len() && i < b.len() && a.subrange(0, i) == b.subrange(0, i) && a[i] < b[i]
}

/// Law: `lex_le` is the byte order of strings: `a` comes first or with `b`
/// exactly when `a` is the beginning of `b`, or at the first byte where the
/// two differ `a` has the smaller one.
pub proof fn law_lex_le_is_byte_order(a: Seq<u8>, b: Seq<u8>)
    ensures
        lex_le(a, b) <==> (a.len() <= b.len() && b.subrange(0, a.len() as int) == a)
            || exists|i: int| #[trigger] smaller_at(a, b, i),
    decreases a.len(),
{
    if a.len() == 0 {
        assert(b.subrange(0, 0) =~= a);
    } else if b.len() == 0 {
        assert(!exists|i: int| #[trigger] smaller_at(a, b, i));
    } else if a[0] != b[0] {
        if a.len() <= b.len() && b.subrange(0, a.len() as int) == a {
            assert(b.subrange(0, a.len() as int)[0] == b[0]);
        }
        if a[0] < b[0] {
            assert(a.subrange(0, 0) =~= b.subrange(0, 0));
            assert(smaller_at(a, b, 0));
        } else {
            assert forall|i: int| !#[trigger] smaller_at(a, b, i) by {
                if smaller_at(a, b, i) && i > 0 {
                    assert(a.subrange(0, i)[0] == a[0]);
                    assert(b.subrange(0, i)[0] == b[0]);
                }
            }
        }
    } else {
        let a1 = a.drop_first();
        let b1 = b.drop_first();
        law_lex_le_is_byte_order(a1, b1);
        // The beginnings
        if a.len() <= b.len() {
            assert(b.subrange(0, a.len() as int) == a <==> b1.subrange(0, a1.len() as int) == a1) by {
                if b.subrange(0, a.len() as int) == a {
                    assert(b1.subrange(0, a1.len() as int) =~= b.subrange(0, a.len() as int).drop_first());
                }
                if b1.subrange(0, a1.len() as int) == a1 {
                    assert forall|j: int| 0 <= j < a.len() implies #[trigger] b.subrange(0, a.len() as int)[j] == a[j] by {
                        if j > 0 {
                            assert(b1.subrange(0, a1.len() as int)[j - 1] == a1[j - 1]);
                        }
                    }
                    assert(b.subrange(0, a.len() as int) =~= a);
                }
            }
        }
        // The first difference
        assert((exists|i: int| #[trigger] smaller_at(a, b, i)) <==> (exists|i: int| #[trigger] smaller_at(a1, b1, i))) by {
            if exists|i: int| #[trigger] smaller_at(a, b, i) {
                let i = choose|i: int| #[trigger] smaller_at(a, b, i);
                assert(i > 0);
                assert(a1.subrange(0, i - 1) =~= a.subrange(0, i).drop_first());
                assert(b1.subrange(0, i - 1) =~= b.subrange(0, i).drop_first());
                assert(smaller_at(a1, b1, i - 1));
            }
            if exists|i: int| #[trigger] smaller_at(a1, b1, i) {
                let i = choose|i: int| #[trigger] smaller_at(a1, b1, i);
                assert(a.subrange(0, i + 1) =~= seq![a[0]] + a1.subrange(0, i));
                assert(b.subrange(0, i + 1) =~= seq![b[0]] + b1.subrange(0, i));
                assert(smaller_at(a, b, i + 1));
            }
        }
    }
}

pub proof fn lemma_lex_total(a: Seq<u8>, b: Seq<u8>)
    ensures
        lex_le(a, b) || lex_le(b, a),
    decreases a.len(),
{
    if a.len() > 0 && b.len() > 0 && a[0] == b[0] {
        lemma_lex_total(a.drop_first(), b.drop_first());
    }
}

pub proof fn lemma_lex_refl(a: Seq<u8>)
    ensures
        lex_le(a, a),
    decreases a.len(),
{
    if a.len() > 0 {
        lemma_lex_refl(a.drop_first());
    }
}

pub proof fn lemma_lex_trans(a: Seq<u8>, b: Seq<u8>, c: Seq<u8>)
    requires
        lex_le(a, b),
        lex_le(b, c),
    ensures
        lex_le(a, c),
    decreases a.len(),
{
    if a.len() > 0 && b.len() > 0 && c.len() > 0 && a[0] == b[0] && b[0] == c[0] {
        lemma_lex_trans(a.drop_first(), b.drop_first(), c.drop_first());
    }
}

proof fn lemma_lex_skip(a: Seq<u8>, b: Seq<u8>, i: int)
    requires
        0 <= i <= a.len(),
        i <= b.len(),
        a.subrange(0, i) == b.subrange(0, i),
    ensures
        lex_le(a, b) == lex_le(a.skip(i), b.skip(i)),
    decreases i,
{
    if i > 0 {
        assert(a[0] == a.subrange(0, i)[0]);
        assert(b[0] == b.subrange(0, i)[0]);
        assert(a.drop_first().subrange(0, i - 1) =~= a.subrange(0, i).drop_first());
        assert(b.drop_first().subrange(0, i - 1) =~= b.subrange(0, i).drop_first());
        lemma_lex_skip(a.drop_first(), b.drop_first(), i - 1);
        assert(a.drop_first().skip(i - 1) =~= a.skip(i));
        assert(b.drop_first().skip(i - 1) =~= b.skip(i));
    } else {
        assert(a.skip(0) =~= a);
        assert(b.skip(0) =~= b);
    }
}

/// Byte-wise order of two names.
pub fn bytes_le(a: &[u8], b: &[u8]) -> (r: bool)
    ensures
        r == lex_le(a@, b@),
{
    let mut i: usize = 0;
    while i < a.len() && i < b.len() && a[i] == b[i]
        invariant
            0 <= i <= a@.len(),
            i <= b@.len(),
            a@.subrange(0, i as int) == b@.subrange(0, i as int),
        decreases a@.len() - i,
    {
        assert(a@.subrange(0, i + 1) =~= a@.subrange(0, i as int).push(a@[i as int]));
        assert(b@.subrange(0, i + 1) =~= b@.subrange(0, i as int).push(b@[i as int]));
        i = i + 1;
    }
    proof {
        lemma_lex_skip(a@, b@, i as int);
        if i < a@.len() && i < b@.len() {
            assert(a@.skip(i as int)[0] == a@[i as int]);
            assert(b@.skip(i as int)[0] == b@[i as int]);
        }
    }
    if i == a.len() {
        true
    } else if i == b.len() {
        false
    } else {
        a[i] < b[i]
    }
}

/// Whether `p` occurs in `s`.
pub fn find_bytes(s: &[u8], p: &[u8]) -> (r: bool)
    ensures
        r == contains_bytes(s@, p@),
{
    if p.len() > s.len() {
        assert forall|i: int| !#[trigger] occurs_at(s@, p@, i) by {}
        return false;
    }
    let slen = s.len();
    let last = slen - p.len();
    let mut i: usize = 0;
    while i <= last
        invariant
            0 <= i <= last + 1,
            slen == s@.len(),
            last == s@.len() - p@.len(),
            forall|k: int| 0 <= k < i ==> !#[trigger] occurs_at(s@, p@, k),
        decreases last + 1 - i,
    {
        let mut j: usize = 0;
        while j < p.len() && s[i + j] == p[j]
            invariant
                0 <= j <= p@.len(),
                i <= last,
                slen == s@.len(),
                last == s@.len() - p@.len(),
                forall|m: int| 0 <= m < j ==> s@[i + m] == p@[m],
            decreases p@.len() - j,
        {
            j = j + 1;
        }
        if j == p.len() {
            assert(s@.subrange(i as int, i + p@.len()) =~= p@);
            assert(occurs_at(s@, p@, i as int));
            return true;
        }
        assert(s@.subrange(i as int, i + p@.len())[j as int] != p@[j as int]);
        i = i + 1;
    }
    assert forall|k: int| !#[trigger] occurs_at(s@, p@, k) by {
        if 0 <= k < i {
        }
    }
    false
}

/// Whether `p` is the beginning of `s`.
pub fn starts_with_bytes(s: &[u8], p: &[u8]) -> (r: bool)
    ensures
        r == is_prefix(p@, s@),
{
    if p.len() > s.len() {
        return false;
    }
    let mut j: usize = 0;
    while j < p.len()
        invariant
            0 <= j <= p@.len(),
            p@.len() <= s@.len(),
            forall|m: int| 0 <= m < j ==> s@[m] == p@[m],
        decreases p@.len() - j,
    {
        if s[j] != p[j] {
            assert(s@.subrange(0, p@.len() as int)[j as int] != p@[j as int]);
            return false;
        }
        j = j + 1;
    }
    assert(s@.subrange(0, p@.len() as int) =~= p@);
    true
}

/// Whether two byte strings are equal.
pub fn bytes_eq(a: &[u8], b: &[u8]) -> (r: bool)
    ensures
        r == (a@ == b@),
{
    if a.len() != b.len() {
        return false;
    }
    let mut j: usize = 0;
    while j < a.len()
        invariant
            0 <= j <= a@.len(),
            a@.len() == b@.len(),
            forall|m: int| 0 <= m < j ==> a@[m] == b@[m],
        decreases a@.len() - j,
    {
        if a[j] != b[j] {
            return false;
        }
        j = j + 1;
    }
    assert(a@ =~= b@);
    true
}

// ---------------------------------------------------------------------
// Words of material names
// ---------------------------------------------------------------------

pub open spec fn word_concrete() -> Seq<u8> {
    seq![99u8, 111, 110, 99, 114, 101, 116, 101]
}

pub open spec fn word_metal() -> Seq<u8> {
    seq![109u8, 101, 116, 97, 108]
}

pub open spec fn word_glass() -> Seq<u8> {
    seq![103u8, 108, 97, 115, 115]
}

pub open spec fn word_window() -> Seq<u8> {
    seq![119u8, 105, 110, 100, 111, 119]
}

fn concrete_bytes() -> (w: Vec<u8>)
    ensures
        w@ == word_concrete(),
{
    let w = vec![99u8, 111, 110, 99, 114, 101, 116, 101];
    assert(w@ =~= word_concrete());
    w
}

fn metal_bytes() -> (w: Vec<u8>)
    ensures
        w@ == word_metal(),
{
    let w = vec![109u8, 101, 116, 97, 108];
    assert(w@ =~= word_metal());
    w
}

fn glass_bytes() -> (w: Vec<u8>)
    ensures
        w@ == word_glass(),
{
    let w = vec![103u8, 108, 97, 115, 115];
    assert(w@ =~= word_glass());
    w
}

fn window_bytes() -> (w: Vec<u8>)
    ensures
        w@ == word_window(),
{
    let w = vec![119u8, 105, 110, 100, 111, 119];
    assert(w@ =~= word_window());
    w
}

/// Concrete textures are the defaults and come first.
pub open spec fn is_concrete(name: Seq<u8>) -> bool {
    is_prefix(word_concrete(), name)
}

/// Canonical order of material names: concrete first, then byte order.
pub open spec fn name_le(a: Seq<u8>, b: Seq<u8>) -> bool {
    if is_concrete(a) != is_concrete(b) {
        is_concrete(a)
    } else {
        lex_le(a, b)
    }
}

pub proof fn lemma_name_total(a: Seq<u8>, b: Seq<u8>)
    ensures
        name_le(a, b) || name_le(b, a),
{
    lemma_lex_total(a, b);
}

pub proof fn lemma_name_trans(a: Seq<u8>, b: Seq<u8>, c: Seq<u8>)
    requires
        name_le(a, b),
        name_le(b, c),
    ensures
        name_le(a, c),
{
    if is_concrete(a) == is_concrete(b) && is_concrete(b) == is_concrete(c) {
        lemma_lex_trans(a, b, c);
    }
}

/// Specular strength of a material in thousandths, from the words in its name.
pub open spec fn specular_permille_spec(name: Seq<u8>) -> u32 {
    if contains_bytes(name, word_metal()) {
        500  // Medium specular for metal

    } else if contains_bytes(name, word_glass()) || contains_bytes(name, word_window()) {
        800  // High specular for glass/windows

    } else if contains_bytes(name, word_concrete()) {
        100
    } else {
        0
    }
}

/// Law: two names that both start with `concrete`, or that both do not, are
/// ordered byte by byte; a name that starts with `concrete` comes before
/// every name that does not, and never after one.
pub proof fn law_name_order(a: Seq<u8>, b: Seq<u8>)
    ensures
        ({
            let ca = is_prefix(seq![99u8, 111, 110, 99, 114, 101, 116, 101], a);
            let cb = is_prefix(seq![99u8, 111, 110, 99, 114, 101, 116, 101], b);
            &&& ca == cb ==> (name_le(a, b) <==> lex_le(a, b))
            &&& ca && !cb ==> name_le(a, b) && !name_le(b, a)
        }),
{
    assert(word_concrete() =~= seq![99u8, 111, 110, 99, 114, 101, 116, 101]);
}

/// Law: in a list sorted by names, every name that starts with `concrete`
/// stands before every name that does not, and within each of the two
/// groups the names stand in byte order.
pub proof fn law_sorted_names_layout(s: Seq<Vec<u8>>)
    requires
        sorted_names(s),
    ensures
        forall|i: int, j: int|
            #![trigger s[i], s[j]]
            0 <= i < j < s.len() ==> {
                &&& is_prefix(seq![99u8, 111, 110, 99, 114, 101, 116, 101], s[j]@) ==> is_prefix(seq![99u8, 111, 110, 99, 114, 101, 116, 101], s[i]@)
                &&& is_prefix(seq![99u8, 111, 110, 99, 114, 101, 116, 101], s[i]@) == is_prefix(seq![99u8, 111, 110, 99, 114, 101, 116, 101], s[j]@) ==> lex_le(s[i]@, s[j]@)
            },
{
    assert forall|i: int, j: int| #![trigger s[i], s[j]] 0 <= i < j < s.len() implies {
        &&& is_prefix(seq![99u8, 111, 110, 99, 114, 101, 116, 101], s[j]@) ==> is_prefix(seq![99u8, 111, 110, 99, 114, 101, 116, 101], s[i]@)
        &&& is_prefix(seq![99u8, 111, 110, 99, 114, 101, 116, 101], s[i]@) == is_prefix(seq![99u8, 111, 110, 99, 114, 101, 116, 101], s[j]@) ==> lex_le(s[i]@, s[j]@)
    } by {
        assert(name_le(s[i]@, s[j]@));
        law_name_order(s[i]@, s[j]@);
    }
}

/// Law: the specular strength goes by the words a name contains anywhere in
/// it: `metal` gives 500; else `glass` or `window` gives 800; else
/// `concrete` gives 100; a name with none of them gives 0.
pub proof fn law_specular_by_words(n: Seq<u8>)
    ensures
        ({
            let metal = seq![109u8, 101, 116, 97, 108];
            let glass = seq![103u8, 108, 97, 115, 115];
            let window = seq![119u8, 105, 110, 100, 111, 119];
            let r = specular_permille_spec(n);
            &&& contains_bytes(n, metal) ==> r == 500
            &&& !contains_bytes(n, metal) && (contains_bytes(n, glass) || contains_bytes(n, window)) ==> r == 800
            &&& !contains_bytes(n, metal) && !contains_bytes(n, glass) && !contains_bytes(n, window)
                && contains_bytes(n, seq![99u8, 111, 110, 99, 114, 101, 116, 101]) ==> r == 100
            &&& !contains_bytes(n, metal) && !contains_bytes(n, glass) && !contains_bytes(n, window)
                && !contains_bytes(n, seq![99u8, 111, 110, 99, 114, 101, 116, 101]) ==> r == 0
        }),
{
    assert(word_concrete() =~= seq![99u8, 111, 110, 99, 114, 101, 116, 101]);
    assert(word_metal() =~= seq![109u8, 101, 116, 97, 108]);
    assert(word_glass() =~= seq![103u8, 108, 97, 115, 115]);
    assert(word_window() =~= seq![119u8, 105, 110, 100, 111, 119]);
}

/// Specular strength of a material in thousandths, from the words in its name.
pub fn specular_permille(name: &[u8]) -> (r: u32)
    ensures
        r == specular_permille_spec(name@),
        !contains_bytes(name@, seq![109u8, 101, 116, 97, 108]) && contains_bytes(name@, seq![103u8, 108, 97, 115, 115]) ==> r == 800,
{
    proof {
        law_specular_by_words(name@);
    }
    if find_bytes(name, metal_bytes().as_slice()) {
        500
    } else if find_bytes(name, glass_bytes().as_slice()) || find_bytes(
        name,
        window_bytes().as_slice(),
    ) {
        800
    } else if find_bytes(name, concrete_bytes().as_slice()) {
        100
    } else {
        0
    }
}

/// Whether `a` comes before or with `b` in the canonical order of names.
pub fn name_before(a: &[u8], b: &[u8]) -> (r: bool)
    ensures
        r == name_le(a@, b@),
        is_prefix(seq![99u8, 111, 110, 99, 114, 101, 116, 101], a@) && is_prefix(seq![99u8, 111, 110, 99, 114, 101, 116, 101], b@) ==> r == lex_le(a@, b@),
        !is_prefix(seq![99u8, 111, 110, 99, 114, 101, 116, 101], a@) && !is_prefix(seq![99u8, 111, 110, 99, 114, 101, 116, 101], b@) ==> r == lex_le(a@, b@),
{
    proof {
        law_name_order(a@, b@);
    }
    let concrete = concrete_bytes();
    let a_is_concrete = starts_with_bytes(a, concrete.as_slice());
    let b_is_concrete = starts_with_bytes(b, concrete.as_slice());
    if a_is_concrete && !b_is_concrete {
        true
    } else if !a_is_concrete && b_is_concrete {
        false
    } else {
        bytes_le(a, b)
    }
}

pub open spec fn sorted_names(s: Seq<Vec<u8>>) -> bool {
    forall|i: int, j: int| 0 <= i < j < s.len() ==> name_le(#[trigger] s[i]@, #[trigger] s[j]@)
}

/// Sort names in the canonical order: concrete textures first, as they are the defaults.
pub fn sort_names(names: Vec<Vec<u8>>) -> (r: Vec<Vec<u8>>)
    ensures
        r@.to_multiset() == names@.to_multiset(),
        sorted_names(r@),
        forall|i: int, j: int|
            #![trigger r@[i], r@[j]]
            0 <= i < j < r@.len() ==> {
                &&& is_prefix(seq![99u8, 111, 110, 99, 114, 101, 116, 101], r@[j]@) ==> is_prefix(seq![99u8, 111, 110, 99, 114, 101, 116, 101], r@[i]@)
                &&& is_prefix(seq![99u8, 111, 110, 99, 114, 101, 116, 101], r@[i]@) == is_prefix(seq![99u8, 111, 110, 99, 114, 101, 116, 101], r@[j]@) ==> lex_le(r@[i]@, r@[j]@)
            },
{
    broadcast use vstd::seq_lib::group_to_multiset_ensures;
    broadcast use vstd::multiset::group_multiset_axioms;

    let mut out: Vec<Vec<u8>> = Vec::new();
    let mut rest = names;
    let ghost orig = rest@;
    while rest.len() > 0
        invariant
            out@.to_multiset().add(rest@.to_multiset()) == orig.to_multiset(),
            sorted_names(out@),
        decreases rest@.len(),
    {
        let ghost rest0 = rest@;
        let x = match rest.pop() {
            Some(v) => v,
            None => {
                proof {
                    law_sorted_names_layout(out@);
                }
                return out;
            },
        };
        proof {
            assert(rest0 =~= rest@.push(x));
        }
        // Insert before the first name that must come after x
        let mut pos: usize = 0;
        while pos < out.len() && name_before(out[pos].as_slice(), x.as_slice())
            invariant
                0 <= pos <= out@.len(),
                forall|i: int| 0 <= i < pos ==> name_le(#[trigger] out@[i]@, x@),
            decreases out@.len() - pos,
        {
            pos = pos + 1;
        }
        let ghost before = out@;
        out.insert(pos, x);
        proof {
            assert(out@.remove(pos as int) =~= before);
            assert(out@[pos as int] == x);
            out@.to_multiset_ensures();
            rest@.to_multiset_ensures();
            assert(out@.remove(pos as int).to_multiset() == out@.to_multiset().remove(x));
            assert(out@.contains(x));
            assert(out@.to_multiset().count(x) > 0);
            assert(rest0.to_multiset() == rest@.to_multiset().insert(x));
            assert(out@.to_multiset() =~= before.to_multiset().insert(x));
            assert(out@.to_multiset().add(rest@.to_multiset()) =~= before.to_multiset().add(rest0.to_multiset()));
            assert forall|i: int, j: int| 0 <= i < j < out@.len() implies name_le(
                #[trigger] out@[i]@,
                #[trigger] out@[j]@,
            ) by {
                if pos < before.len() {
                    lemma_name_total(before[pos as int]@, x@);
                }
                if i < pos && j == pos {
                } else if i == pos && j > pos {
                    if j - 1 == pos {
                        lemma_lex_refl(before[pos as int]@);
                    } else {
                        assert(name_le(before[pos as int]@, before[j - 1]@));
                    }
                    lemma_name_trans(x@, before[pos as int]@, before[j - 1]@);
                } else if i < pos && j > pos {
                    assert(name_le(before[i]@, before[j - 1]@));
                } else if i > pos {
                    assert(name_le(before[i - 1]@, before[j - 1]@));
                } else {
                    assert(name_le(before[i]@, before[j]@));
                }
            }
        }
    }
    assert(rest@.to_multiset() =~= Multiset::empty());
    assert(out@.to_multiset() =~= orig.to_multiset());
    proof {
        law_sorted_names_layout(out@);
    }
    out
}

// ---------------------------------------------------------------------
// Textures
// ---------------------------------------------------------------------

/// Why a texture cannot become a material layer.
#[derive(Clone, Copy, Debug, PartialEq, Eq, Structural)]
pub enum TextureError {
    /// The bytes are not a PNG image that can be decoded.
    Undecodable,
    /// The decoded image is larger than a layer can hold, or its pixel
    /// buffer is shorter than its size asks for.
    BadDimensions,
    /// The decoded pixels are neither RGB nor RGBA.
    UnsupportedFormat,
    /// The texture size does not divide the layer size, so it cannot be tiled.
    NotADivisor,
}

/// The RGBA layer a texture becomes: tiled to `LAYER_SIZE` x `LAYER_SIZE`.
pub open spec fn layer_of(rgba: Seq<u8>, width: int, height: int, r: Seq<u8>) -> bool {
    if width == LAYER_SIZE && height == LAYER_SIZE {
        r == rgba
    } else {
        &&& r.len() == LAYER_SIZE * LAYER_SIZE * 4
        &&& forall|y: int, b: int|
            0 <= y < LAYER_SIZE && 0 <= b < 4 * LAYER_SIZE ==> #[trigger] r[y * (4
                * LAYER_SIZE) + b] == tiled_byte(rgba, width, height, y, b)
    }
}

/// Turn decoded pixels into a material layer: normalize to RGBA, check that the
/// size divides the layer, and tile the pattern over the whole layer.
/// The pixel buffer holds the image and its RGBA form fits in a layer's index range.
pub open spec fn size_ok(pixels: Seq<u8>, width: u32, height: u32, format: PixelFormat) -> bool {
    &&& width * height * 4 <= u32::MAX
    &&& format == PixelFormat::Rgb ==> pixels.len() >= 3 * (width * height)
    &&& format == PixelFormat::Rgba ==> pixels.len() >= 4 * (width * height)
}

/// What preparing decoded pixels answers: an error for an unsupported format
/// or a size that does not divide the layer, else the tiled layer.
pub open spec fn prepared(pixels: Seq<u8>, width: u32, height: u32, format: PixelFormat, r: Result<Vec<u8>, TextureError>) -> bool {
    if format == PixelFormat::Other {
        r == Err::<Vec<u8>, TextureError>(TextureError::UnsupportedFormat)
    } else if width == 0 || height == 0 || LAYER_SIZE % width != 0 || LAYER_SIZE % height != 0 {
        r == Err::<Vec<u8>, TextureError>(TextureError::NotADivisor)
    } else {
        r is Ok && layer_of(
            if format == PixelFormat::Rgb {
                rgb_as_rgba(pixels, width * height)
            } else {
                pixels
            },
            width as int,
            height as int,
            r.unwrap()@,
        )
    }
}

pub fn prepare_texture(pixels: Vec<u8>, width: u32, height: u32, format: PixelFormat) -> (r: Result<Vec<u8>, TextureError>)
    requires
        size_ok(pixels@, width, height, format),
    ensures
        prepared(pixels@, width, height, format, r),
{
    let ghost input = pixels@;
    let rgba = match to_rgba(pixels, width, height, format) {
        Some(data) => data,
        None => {
            return Err(TextureError::UnsupportedFormat);
        },
    };
    // Ensure the texture can be tiled perfectly into a 1024x1024 square
    if width == 0 || height == 0 || LAYER_SIZE % width != 0 || LAYER_SIZE % height != 0 {
        return Err(TextureError::NotADivisor);
    }
    proof {
        assert(width <= LAYER_SIZE && height <= LAYER_SIZE) by {
            if width > LAYER_SIZE {
                lemma_small_mod(LAYER_SIZE as nat, width as nat);
            }
            if height > LAYER_SIZE {
                lemma_small_mod(LAYER_SIZE as nat, height as nat);
            }
        }
        assert(rgba@.len() >= width * height * 4);
    }
    // Tile the texture to fill a 1024x1024 RGBA buffer
    let tiled = tile_texture(rgba.as_slice(), width, height, LAYER_SIZE, LAYER_SIZE);
    Ok(tiled)
}

/// A decoded PNG image: its pixel buffer, size and pixel layout.
pub struct DecodedPng {
    pub pixels: Vec<u8>,
    pub width: u32,
    pub height: u32,
    pub format: PixelFormat,
}

/// What the png crate decodes from the bytes of a PNG file: the first
/// frame's pixel buffer, width, height and pixel layout, or `None` where it
/// reports an error.
pub uninterp spec fn png_decoded(bytes: Seq<u8>) -> Option<(Seq<u8>, u32, u32, PixelFormat)>;

/// Decode a PNG file with the png crate: `Decoder::new` over the bytes,
/// `read_info`, a buffer of `output_buffer_size` bytes, and `next_frame` into
/// it. The contract claims only that the result is a function of the bytes
/// (`png_decoded`), `None` where any of those steps fails; RGB and RGBA
/// become `Rgb` and `Rgba`, every other color type `Other`.
#[verifier::external_body]
fn decode_png(bytes: &[u8]) -> (r: Option<DecodedPng>)
    ensures
        match r {
            Some(d) => png_decoded(bytes@) == Some((d.pixels@, d.width, d.height, d.format)),
            None => png_decoded(bytes@) is None,
        },
{
    let decoder = png::Decoder::new(std::io::Cursor::new(bytes));
    let mut reader = decoder.read_info().ok()?;
    let mut pixels = vec![0u8; reader.output_buffer_size()?];
    let info = reader.next_frame(&mut pixels).ok()?;
    let format = match info.color_type {
        png::ColorType::Rgb => PixelFormat::Rgb,
        png::ColorType::Rgba => PixelFormat::Rgba,
        _ => PixelFormat::Other,
    };
    Some(DecodedPng { pixels, width: info.width, height: info.height, format })
}

/// What loading a texture from PNG bytes answers.
pub open spec fn loaded_texture(bytes: Seq<u8>, r: Result<Vec<u8>, TextureError>) -> bool {
    match png_decoded(bytes) {
        None => r == Err::<Vec<u8>, TextureError>(TextureError::Undecodable),
        Some((pixels, width, height, format)) => frame_texture(pixels, width, height, format, r),
    }
}

/// What turning a decoded frame into a layer answers: an error when the
/// buffer does not hold the image or its layer would not fit, else as
/// `prepared`.
pub open spec fn frame_texture(pixels: Seq<u8>, width: u32, height: u32, format: PixelFormat, r: Result<Vec<u8>, TextureError>) -> bool {
    if size_ok(pixels, width, height, format) {
        prepared(pixels, width, height, format, r)
    } else {
        r == Err::<Vec<u8>, TextureError>(TextureError::BadDimensions)
    }
}

/// Whether the bytes load as a material layer.
pub open spec fn texture_loads(bytes: Seq<u8>) -> bool {
    match png_decoded(bytes) {
        None => false,
        Some((pixels, width, height, format)) => {
            &&& size_ok(pixels, width, height, format)
            &&& format != PixelFormat::Other
            &&& width != 0 && height != 0
            &&& LAYER_SIZE % width == 0 && LAYER_SIZE % height == 0
        },
    }
}

/// Load a PNG texture and turn it into a material layer.
pub fn load_texture(bytes: &[u8]) -> (r: Result<Vec<u8>, TextureError>)
    ensures
        loaded_texture(bytes@, r),
{
    match decode_png(bytes) {
        Some(d) => texture_from_frame(d.pixels, d.width, d.height, d.format),
        None => Err(TextureError::Undecodable),
    }
}

/// Turn a decoded frame into a material layer: check that the buffer holds
/// the image and that its RGBA form fits, then prepare it.
pub fn texture_from_frame(pixels: Vec<u8>, width: u32, height: u32, format: PixelFormat) -> (r: Result<Vec<u8>, TextureError>)
    ensures
        frame_texture(pixels@, width, height, format, r),
{
    let w = width as u128;
    let h = height as u128;
    assert(w * h <= 0xffff_ffff * 0xffff_ffff) by (nonlinear_arith)
        requires
            w <= 0xffff_ffff,
            h <= 0xffff_ffff,
    ;
    let area: u128 = w * h;
    if area * 4 > 0xffff_ffff {
        return Err(TextureError::BadDimensions);
    }
    let n = area as usize;
    let short = match format {
        PixelFormat::Rgb => pixels.len() / 3 < n,
        PixelFormat::Rgba => pixels.len() / 4 < n,
        PixelFormat::Other => false,
    };
    if short {
        return Err(TextureError::BadDimensions);
    }
    prepare_texture(pixels, width, height, format)
}

// ---------------------------------------------------------------------
// The registry
// ---------------------------------------------------------------------

/// CPU-side registry of the materials: names in canonical order, their tiled
/// RGBA layers and their specular strengths (in thousandths).
pub struct MaterialRegistry {
    pub texture_datas: Vec<Vec<u8>>,
    pub specular_permilles: Vec<u32>,
    pub names: Vec<Vec<u8>>,
}

impl MaterialRegistry {
    /// Build the registry from the material names in canonical order and the
    /// bytes of each one's PNG file: each texture is tiled to a layer and
    /// each name gives its specular strength. The first texture that does
    /// not load ends the build with its index and error.
    pub fn from_pngs(names: Vec<Vec<u8>>, pngs: &Vec<Vec<u8>>) -> (r: Result<MaterialRegistry, (usize, TextureError)>)
        requires
            names@.len() == pngs@.len(),
        ensures
            match r {
                Ok(reg) => {
                    &&& reg.names@ == names@
                    &&& reg.texture_datas@.len() == names@.len()
                    &&& reg.specular_permilles@.len() == names@.len()
                    &&& forall|i: int|
                        0 <= i < names@.len() ==> {
                            &&& texture_loads(#[trigger] pngs@[i]@)
                            &&& loaded_texture(pngs@[i]@, Ok(reg.texture_datas@[i]))
                            &&& reg.specular_permilles@[i] == specular_permille_spec(names@[i]@)
                        }
                },
                Err((i, e)) => {
                    &&& (i as int) < names@.len()
                    &&& !texture_loads(pngs@[i as int]@)
                    &&& loaded_texture(pngs@[i as int]@, Err(e))
                    &&& forall|j: int| 0 <= j < i ==> texture_loads(#[trigger] pngs@[j]@)
                },
            },
    {
        let mut texture_datas: Vec<Vec<u8>> = Vec::new();
        let mut specular_permilles: Vec<u32> = Vec::new();
        let mut i: usize = 0;
        while i < names.len()
            invariant
                names@.len() == pngs@.len(),
                0 <= i <= names@.len(),
                texture_datas@.len() == i,
                specular_permilles@.len() == i,
                forall|j: int|
                    0 <= j < i ==> {
                        &&& texture_loads(#[trigger] pngs@[j]@)
                        &&& loaded_texture(pngs@[j]@, Ok(texture_datas@[j]))
                        &&& specular_permilles@[j] == specular_permille_spec(names@[j]@)
                    },
            decreases names@.len() - i,
        {
            match load_texture(pngs[i].as_slice()) {
                Ok(layer) => {
                    texture_datas.push(layer);
                },
                Err(e) => {
                    return Err((i, e));
                },
            }
            // Set specular highlights based on keywords in the filename
            specular_permilles.push(specular_permille(names[i].as_slice()));
            i = i + 1;
        }
        Ok(MaterialRegistry { texture_datas, specular_permilles, names })
    }

    /// Get the total number of loaded materials
    pub fn get_num_materials(&self) -> (n: u32)
        ensures
            n == self.texture_datas@.len() as u32,
    {
        self.texture_datas.len() as u32
    }

    /// Number of material names.
    pub fn num_materials(&self) -> (n: u32)
        ensures
            n == self.names@.len() as u32,
    {
        self.names.len() as u32
    }

    /// Id of the material with the given name; the first (default) material when no name matches.
    pub fn id_from_name(&self, name: &[u8]) -> (id: u32)
        requires
            self.names@.len() <= u32::MAX,
        ensures
            (exists|i: int| 0 <= i < self.names@.len() && #[trigger] self.names@[i]@ == name@) ==> {
                &&& (id as int) < self.names@.len()
                &&& self.names@[id as int]@ == name@
                &&& forall|i: int| 0 <= i < id ==> #[trigger] self.names@[i]@ != name@
            },
            (forall|i: int| 0 <= i < self.names@.len() ==> #[trigger] self.names@[i]@ != name@)
                ==> id == 0,
    {
        let mut i: usize = 0;
        while i < self.names.len()
            invariant
                0 <= i <= self.names@.len(),
                self.names@.len() <= u32::MAX,
                forall|j: int| 0 <= j < i ==> #[trigger] self.names@[j]@ != name@,
            decreases self.names@.len() - i,
        {
            if bytes_eq(self.names[i].as_slice(), name) {
                return i as u32;
            }
            i = i + 1;
        }
        0
    }

    /// Name of the material with the given id.
    pub fn material_name(&self, id: u32) -> (name: &Vec<u8>)
        requires
            (id as int) < self.names@.len(),
        ensures
            *name == self.names@[id as int],
    {
        &self.names[id as usize]
    }
}

/// The material after `m` among `n`, wrapping around to the first.
pub fn next_material(m: u32, n: u32) -> (r: u32)
    requires
        n > 0,
        m < u32::MAX,
    ensures
        r == (m + 1) % (n as int),
{
    (m + 1) % n
}

/// The material before `m` among `n`, wrapping around to the last.
pub fn prev_material(m: u32, n: u32) -> (r: u32)
    requires
        n > 0,
    ensures
        r == if m > 0 { m - 1 } else { n - 1 },
{
    if m > 0 {
        m - 1
    } else {
        n - 1
    }
}

} // verus!
