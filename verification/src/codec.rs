//! The persisted form of a level: a small structured-text document.
//!
//! A level is saved as a TOML-style record of four fields,
//!
//! ```text
//! name = "Default Level"
//! width = 10
//! height = 10
//! heights = [[1.000000, ...], ...]
//! ```
//!
//! with one inner list per grid row and every height written as a decimal
//! with exactly six fractional digits, so the fixed-point heights survive a
//! save and reload bit for bit. [`render_level`] produces exactly the
//! canonical document described by [`render_level_spec`]; [`parse_level`]
//! accepts exactly such documents — succeeding on every one of them — and
//! yields a well-formed level, rejecting anything malformed.
//!
//! Only the canonical form is the persistence contract: a document that
//! would mean the same level in a more general notation (a height written
//! `1.0`, another field order, other whitespace) is treated as malformed
//! and skipped, and the loader then falls back as for any unreadable
//! file.

use vstd::prelude::*;
use vstd::string::StrSliceExecFns;

use crate::fixed::SCALE;
use crate::hex::Hex;
use crate::level::{Level, HEIGHT_LIMIT, MAX_EXTENT};

verus! {

/// Decimal digit byte for a value in `0 ..= 9`.
pub open spec fn digit_byte(d: int) -> u8 {
    (48 + d) as u8
}

/// Canonical decimal digits of a nonnegative integer, no leading zeros.
pub open spec fn dec_rep(v: int) -> Seq<u8>
    recommends
        v >= 0,
    decreases v,
{
    if v <= 9 {
        seq![digit_byte(v)]
    } else {
        dec_rep(v / 10) + seq![digit_byte(v % 10)]
    }
}

/// The six fractional digits of a value in `0 ..= 999999`, zero-padded.
pub open spec fn pad6_rep(f: int) -> Seq<u8> {
    seq![
        digit_byte(f / 100_000 % 10),
        digit_byte(f / 10_000 % 10),
        digit_byte(f / 1_000 % 10),
        digit_byte(f / 100 % 10),
        digit_byte(f / 10 % 10),
        digit_byte(f % 10),
    ]
}

/// A fixed-point height as its canonical decimal text: optional minus
/// sign, integer part, a dot, and exactly six fractional digits.
pub open spec fn num_rep(x: int) -> Seq<u8> {
    let a = if x >= 0 {
        x
    } else {
        -x
    };
    (if x < 0 {
        seq![45u8]
    } else {
        Seq::<u8>::empty()
    }) + dec_rep(a / (SCALE as int)) + seq![46u8] + pad6_rep(a % (SCALE as int))
}

/// The separator between list elements: a comma and a space.
pub open spec fn sep_rep() -> Seq<u8> {
    seq![44u8, 32u8]
}

/// The first `q` cells of row `r` of a row-major height grid of width
/// `w`, rendered and separated.
pub open spec fn row_cells_rep(hs: Seq<i64>, w: int, r: int, q: int) -> Seq<u8>
    decreases q,
{
    if q <= 0 {
        Seq::<u8>::empty()
    } else if q == 1 {
        num_rep(hs[r * w] as int)
    } else {
        row_cells_rep(hs, w, r, q - 1) + sep_rep() + num_rep(hs[r * w + (q - 1)] as int)
    }
}

/// One grid row as a bracketed list of its cells.
pub open spec fn row_rep(hs: Seq<i64>, w: int, r: int) -> Seq<u8> {
    seq![91u8] + row_cells_rep(hs, w, r, w) + seq![93u8]
}

/// The first `r` rows, rendered and separated.
pub open spec fn rows_rep(hs: Seq<i64>, w: int, r: int) -> Seq<u8>
    decreases r,
{
    if r <= 0 {
        Seq::<u8>::empty()
    } else if r == 1 {
        row_rep(hs, w, 0)
    } else {
        rows_rep(hs, w, r - 1) + sep_rep() + row_rep(hs, w, r - 1)
    }
}

/// `name = "` — the opening of the document.
pub open spec fn lit_name_open() -> Seq<u8> {
    seq![110u8, 97u8, 109u8, 101u8, 32u8, 61u8, 32u8, 34u8]
}

/// `"` then a newline and `width = `.
pub open spec fn lit_width_open() -> Seq<u8> {
    seq![34u8, 10u8, 119u8, 105u8, 100u8, 116u8, 104u8, 32u8, 61u8, 32u8]
}

/// Newline then `height = `.
pub open spec fn lit_height_open() -> Seq<u8> {
    seq![10u8, 104u8, 101u8, 105u8, 103u8, 104u8, 116u8, 32u8, 61u8, 32u8]
}

/// Newline then `heights = [`.
pub open spec fn lit_heights_open() -> Seq<u8> {
    seq![10u8, 104u8, 101u8, 105u8, 103u8, 104u8, 116u8, 115u8, 32u8, 61u8, 32u8, 91u8]
}

/// `]` and the final newline.
pub open spec fn lit_close() -> Seq<u8> {
    seq![93u8, 10u8]
}

/// A name is storable when none of its bytes is a double quote, a
/// backslash, or a control character, so it can stand between quotes with
/// no escaping.
pub open spec fn name_bytes_ok(s: Seq<u8>) -> bool {
    forall|i: int| 0 <= i < s.len() ==> s[i] != 34 && s[i] != 92 && #[trigger] s[i] >= 32
}

/// The whole canonical document for a level.
pub open spec fn render_level_spec(l: &Level) -> Seq<u8> {
    lit_name_open() + vstd::utf8::encode_utf8(l.name@) + lit_width_open() + dec_rep(
        l.width as int,
    ) + lit_height_open() + dec_rep(l.height as int) + lit_heights_open() + rows_rep(
        l.heights@,
        l.width as int,
        l.height as int,
    ) + lit_close()
}

/// Append one byte.
fn push_byte(out: &mut Vec<u8>, b: u8)
    ensures
        final(out)@ == old(out)@ + seq![b],
{
    out.push(b);
    proof {
        assert(out@ =~= old(out)@ + seq![b]);
    }
}

/// Append the canonical decimal digits of a nonnegative value.
fn push_dec(out: &mut Vec<u8>, v: i64)
    requires
        0 <= v,
    ensures
        final(out)@ == old(out)@ + dec_rep(v as int),
    decreases v,
{
    if v <= 9 {
        push_byte(out, 48 + (v as u8));
    } else {
        push_dec(out, v / 10);
        let d = v % 10;
        push_byte(out, 48 + (d as u8));
        proof {
            assert(out@ =~= old(out)@ + dec_rep(v as int));
        }
    }
}

/// Append the six zero-padded fractional digits of `f`.
fn push_pad6(out: &mut Vec<u8>, f: i64)
    requires
        0 <= f < SCALE,
    ensures
        final(out)@ == old(out)@ + pad6_rep(f as int),
{
    push_byte(out, 48 + ((f / 100_000 % 10) as u8));
    push_byte(out, 48 + ((f / 10_000 % 10) as u8));
    push_byte(out, 48 + ((f / 1_000 % 10) as u8));
    push_byte(out, 48 + ((f / 100 % 10) as u8));
    push_byte(out, 48 + ((f / 10 % 10) as u8));
    push_byte(out, 48 + ((f % 10) as u8));
    proof {
        assert(out@ =~= old(out)@ + pad6_rep(f as int));
    }
}

/// Append one height in its canonical decimal form.
fn push_num(out: &mut Vec<u8>, x: i64)
    requires
        -HEIGHT_LIMIT <= x <= HEIGHT_LIMIT,
    ensures
        final(out)@ == old(out)@ + num_rep(x as int),
{
    let a: i64 = if x >= 0 {
        x
    } else {
        -x
    };
    if x < 0 {
        push_byte(out, 45);
    }
    push_dec(out, a / SCALE);
    push_byte(out, 46);
    push_pad6(out, a % SCALE);
    proof {
        assert(out@ =~= old(out)@ + num_rep(x as int));
    }
}

/// Append the list separator: a comma and a space.
fn push_sep(out: &mut Vec<u8>)
    ensures
        final(out)@ == old(out)@ + sep_rep(),
{
    push_byte(out, 44);
    push_byte(out, 32);
    proof {
        assert(out@ =~= old(out)@ + sep_rep());
    }
}

/// Whether a level's name can stand in the persisted document: free of
/// double quotes, backslashes and control characters. Callers test this
/// before rendering a level whose name came from elsewhere.
pub fn name_is_storable(l: &Level) -> (r: bool)
    ensures
        r == name_bytes_ok(vstd::utf8::encode_utf8(l.name@)),
{
    let bytes = l.name.as_str().as_bytes_vec();
    let mut i: usize = 0;
    while i < bytes.len()
        invariant
            i <= bytes@.len(),
            bytes@ == vstd::utf8::encode_utf8(l.name@),
            forall|m: int| 0 <= m < i ==> bytes@[m] != 34 && bytes@[m] != 92 && #[trigger] bytes@[m] >= 32,
        decreases bytes@.len() - i,
    {
        let b = bytes[i];
        if b == 34 || b == 92 || b < 32 {
            return false;
        }
        i += 1;
    }
    true
}

/// Render a level into the canonical document of [`render_level_spec`].
pub fn render_level(l: &Level) -> (out: Vec<u8>)
    requires
        l.wf(),
        name_bytes_ok(vstd::utf8::encode_utf8(l.name@)),
    ensures
        out@ == render_level_spec(l),
{
    let mut out: Vec<u8> = Vec::new();
    push_byte(&mut out, 110);
    push_byte(&mut out, 97);
    push_byte(&mut out, 109);
    push_byte(&mut out, 101);
    push_byte(&mut out, 32);
    push_byte(&mut out, 61);
    push_byte(&mut out, 32);
    push_byte(&mut out, 34);
    proof {
        assert(out@ =~= lit_name_open());
    }
    let mut name_bytes = l.name.as_str().as_bytes_vec();
    out.append(&mut name_bytes);
    let ghost with_name = out@;
    proof {
        assert(with_name =~= lit_name_open() + vstd::utf8::encode_utf8(l.name@));
    }
    push_byte(&mut out, 34);
    push_byte(&mut out, 10);
    push_byte(&mut out, 119);
    push_byte(&mut out, 105);
    push_byte(&mut out, 100);
    push_byte(&mut out, 116);
    push_byte(&mut out, 104);
    push_byte(&mut out, 32);
    push_byte(&mut out, 61);
    push_byte(&mut out, 32);
    proof {
        assert(out@ =~= with_name + lit_width_open());
    }
    push_dec(&mut out, l.width as i64);
    let ghost with_width = out@;
    push_byte(&mut out, 10);
    push_byte(&mut out, 104);
    push_byte(&mut out, 101);
    push_byte(&mut out, 105);
    push_byte(&mut out, 103);
    push_byte(&mut out, 104);
    push_byte(&mut out, 116);
    push_byte(&mut out, 32);
    push_byte(&mut out, 61);
    push_byte(&mut out, 32);
    proof {
        assert(out@ =~= with_width + lit_height_open());
    }
    push_dec(&mut out, l.height as i64);
    let ghost with_height = out@;
    push_byte(&mut out, 10);
    push_byte(&mut out, 104);
    push_byte(&mut out, 101);
    push_byte(&mut out, 105);
    push_byte(&mut out, 103);
    push_byte(&mut out, 104);
    push_byte(&mut out, 116);
    push_byte(&mut out, 115);
    push_byte(&mut out, 32);
    push_byte(&mut out, 61);
    push_byte(&mut out, 32);
    push_byte(&mut out, 91);
    proof {
        assert(out@ =~= with_height + lit_heights_open());
    }
    let ghost with_open = out@;
    let h = l.height;
    let w = l.width;
    let mut r: i32 = 0;
    while r < h
        invariant
            l.wf(),
            w == l.width,
            h == l.height,
            0 <= r <= h,
            out@ == with_open + rows_rep(l.heights@, w as int, r as int),
        decreases h - r,
    {
        if r > 0 {
            push_sep(&mut out);
        }
        push_byte(&mut out, 91);
        let ghost row_start = out@;
        let mut q: i32 = 0;
        while q < w
            invariant
                l.wf(),
                w == l.width,
                h == l.height,
                0 <= r < h,
                0 <= q <= w,
                out@ == row_start + row_cells_rep(l.heights@, w as int, r as int, q as int),
            decreases w - q,
        {
            if q > 0 {
                push_sep(&mut out);
            }
            let hv = l.get_height(Hex::new(q, r));
            proof {
                l.lemma_height_at_bounds(q as int, r as int);
                assert(0 <= (r as int) * (w as int) + (q as int)
                    < l.heights@.len()) by (nonlinear_arith)
                    requires
                        0 <= q < w,
                        0 <= r < l.height,
                        w == l.width,
                        l.heights@.len() == l.width * l.height,
                ;
            }
            push_num(&mut out, hv);
            proof {
                assert(out@ =~= row_start + row_cells_rep(
                    l.heights@,
                    w as int,
                    r as int,
                    (q + 1) as int,
                ));
            }
            q += 1;
        }
        push_byte(&mut out, 93);
        proof {
            assert(out@ =~= with_open + rows_rep(l.heights@, w as int, (r + 1) as int));
        }
        r += 1;
    }
    push_byte(&mut out, 93);
    push_byte(&mut out, 10);
    proof {
        assert(out@ =~= render_level_spec(l));
    }
    out
}

/// Relies on `String::from_utf8`: it succeeds exactly on valid UTF-8 input
/// and the returned string's bytes are the input bytes.
#[verifier::external_body]
fn bytes_to_string(v: Vec<u8>) -> (r: Option<String>)
    ensures
        r matches Some(s) ==> vstd::utf8::encode_utf8(s@) == v@,
        r is Some <==> vstd::utf8::valid_utf8(v@),
{
    String::from_utf8(v).ok()
}

/// Ten to the `n`-th power, bounding a parsed digit accumulator.
pub open spec fn pow10(n: int) -> int
    decreases n,
{
    if n <= 0 {
        1
    } else {
        10 * pow10(n - 1)
    }
}

/// Match a fixed expected byte at `i`; the cursor moves past it.
fn expect_byte(bytes: &Vec<u8>, i: usize, b: u8) -> (r: Option<usize>)
    requires
        i <= bytes@.len(),
    ensures
        r matches Some(j) ==> j == i + 1 && i < bytes@.len() && bytes@[i as int] == b
            && bytes@.subrange(i as int, j as int) == seq![b],
        i < bytes@.len() && bytes@[i as int] == b ==> r is Some,
{
    if i < bytes.len() && bytes[i] == b {
        proof {
            assert(bytes@.subrange(i as int, i + 1) =~= seq![b]);
        }
        Some(i + 1)
    } else {
        None
    }
}

/// Appending a digit to a canonical decimal appends its digit byte.
proof fn lemma_dec_rep_append(v: int, d: int)
    requires
        1 <= v,
        0 <= d <= 9,
    ensures
        dec_rep(10 * v + d) == dec_rep(v) + seq![digit_byte(d)],
{
    assert((10 * v + d) / 10 == v && (10 * v + d) % 10 == d) by (nonlinear_arith)
        requires
            1 <= v,
            0 <= d <= 9,
    ;
    assert(10 * v + d >= 10);
}

/// Parse an unsigned decimal of at most seven digits starting at `i`, in
/// canonical form: no leading zero, except for the single digit zero
/// itself.
fn parse_dec(bytes: &Vec<u8>, i: usize) -> (r: Option<(i64, usize)>)
    requires
        i <= bytes@.len(),
    ensures
        r matches Some(p) ==> 0 <= p.0 <= 9_999_999 && i < p.1 <= bytes@.len()
            && bytes@.subrange(i as int, p.1 as int) == dec_rep(p.0 as int),
        r matches Some(p) ==> p.1 == bytes@.len() || !(48 <= bytes@[p.1 as int] <= 57),
        r is None ==> (i == bytes@.len() || !(48 <= bytes@[i as int] <= 57) || (bytes@[i as int]
            == 48 && i + 1 < bytes@.len() && 48 <= bytes@[i + 1] <= 57) || (i + 7
            <= bytes@.len() && forall|m: int| i <= m < i + 7 ==> 48 <= #[trigger] bytes@[m]
            <= 57)),
{
    let mut v: i64 = 0;
    let mut j: usize = i;
    let mut digits: usize = 0;
    while j < bytes.len() && digits < 7 && bytes[j] >= 48 && bytes[j] <= 57
        invariant
            i <= j <= bytes@.len(),
            digits == j - i,
            digits <= 7,
            0 <= v < pow10(digits as int),
            pow10(digits as int) <= 10_000_000,
            digits >= 1 && (bytes@[i as int] != 48 || digits == 1) ==> bytes@.subrange(
                i as int,
                j as int,
            ) == dec_rep(v as int),
            forall|m: int| i <= m < j ==> 48 <= #[trigger] bytes@[m] <= 57,
        decreases bytes@.len() - j,
    {
        proof {
            assert(pow10(digits + 1) == 10 * pow10(digits as int));
            lemma_pow10_values();
            lemma_pow10_mono(digits + 1, 7);
        }
        let d: u8 = bytes[j] - 48;
        let ghost old_v = v as int;
        let ghost old_j = j as int;
        let ghost old_digits = digits as int;
        v = v * 10 + (d as i64);
        j += 1;
        digits += 1;
        proof {
            if old_digits == 0 {
                assert(bytes@.subrange(i as int, j as int) =~= seq![bytes@[i as int]]);
                assert(dec_rep(v as int) == seq![digit_byte(d as int)]);
            } else if bytes@[i as int] != 48 {
                assert(bytes@.subrange(i as int, old_j) == dec_rep(old_v));
                if old_v == 0 {
                    assert(dec_rep(0) == seq![digit_byte(0)]);
                    assert(bytes@[i as int] == bytes@.subrange(i as int, old_j)[0]);
                    assert(false);
                }
                lemma_dec_rep_append(old_v, d as int);
                assert(bytes@.subrange(i as int, j as int) =~= bytes@.subrange(i as int, old_j)
                    + seq![bytes@[old_j]]);
            }
        }
    }
    if digits == 0 || digits >= 7 {
        return None;
    }
    if digits >= 2 && bytes[i] == 48 {
        return None;
    }
    Some((v, j))
}

/// The numeric value of a digit string, most significant first.
pub open spec fn digits_val(s: Seq<u8>) -> int
    decreases s.len(),
{
    if s.len() == 0 {
        0
    } else {
        digits_val(s.drop_last()) * 10 + (s.last() - 48)
    }
}

/// Six digit bytes are exactly the zero-padded rendering of their value.
proof fn lemma_pad6_of_digits(s: Seq<u8>)
    requires
        s.len() == 6,
        forall|m: int| 0 <= m < 6 ==> 48 <= #[trigger] s[m] <= 57,
    ensures
        0 <= digits_val(s) < 1_000_000,
        pad6_rep(digits_val(s)) == s,
{
    let d0 = s[0] - 48;
    let d1 = s[1] - 48;
    let d2 = s[2] - 48;
    let d3 = s[3] - 48;
    let d4 = s[4] - 48;
    let d5 = s[5] - 48;
    let s5 = s.drop_last();
    let s4 = s5.drop_last();
    let s3 = s4.drop_last();
    let s2 = s3.drop_last();
    let s1 = s2.drop_last();
    let s0 = s1.drop_last();
    assert(digits_val(s) == digits_val(s5) * 10 + d5);
    assert(digits_val(s5) == digits_val(s4) * 10 + d4);
    assert(digits_val(s4) == digits_val(s3) * 10 + d3);
    assert(digits_val(s3) == digits_val(s2) * 10 + d2);
    assert(digits_val(s2) == digits_val(s1) * 10 + d1);
    assert(digits_val(s1) == digits_val(s0) * 10 + d0);
    assert(s0.len() == 0);
    assert(digits_val(s0) == 0);
    let f = digits_val(s);
    assert(f == d0 * 100_000 + d1 * 10_000 + d2 * 1_000 + d3 * 100 + d4 * 10 + d5);
    assert(0 <= f < 1_000_000);
    assert(f / 100_000 % 10 == d0) by (nonlinear_arith)
        requires
            f == d0 * 100_000 + d1 * 10_000 + d2 * 1_000 + d3 * 100 + d4 * 10 + d5,
            0 <= d0 <= 9 && 0 <= d1 <= 9 && 0 <= d2 <= 9 && 0 <= d3 <= 9 && 0 <= d4 <= 9 && 0
                <= d5 <= 9,
    ;
    assert(f / 10_000 % 10 == d1) by (nonlinear_arith)
        requires
            f == d0 * 100_000 + d1 * 10_000 + d2 * 1_000 + d3 * 100 + d4 * 10 + d5,
            0 <= d0 <= 9 && 0 <= d1 <= 9 && 0 <= d2 <= 9 && 0 <= d3 <= 9 && 0 <= d4 <= 9 && 0
                <= d5 <= 9,
    ;
    assert(f / 1_000 % 10 == d2) by (nonlinear_arith)
        requires
            f == d0 * 100_000 + d1 * 10_000 + d2 * 1_000 + d3 * 100 + d4 * 10 + d5,
            0 <= d0 <= 9 && 0 <= d1 <= 9 && 0 <= d2 <= 9 && 0 <= d3 <= 9 && 0 <= d4 <= 9 && 0
                <= d5 <= 9,
    ;
    assert(f / 100 % 10 == d3) by (nonlinear_arith)
        requires
            f == d0 * 100_000 + d1 * 10_000 + d2 * 1_000 + d3 * 100 + d4 * 10 + d5,
            0 <= d0 <= 9 && 0 <= d1 <= 9 && 0 <= d2 <= 9 && 0 <= d3 <= 9 && 0 <= d4 <= 9 && 0
                <= d5 <= 9,
    ;
    assert(f / 10 % 10 == d4) by (nonlinear_arith)
        requires
            f == d0 * 100_000 + d1 * 10_000 + d2 * 1_000 + d3 * 100 + d4 * 10 + d5,
            0 <= d0 <= 9 && 0 <= d1 <= 9 && 0 <= d2 <= 9 && 0 <= d3 <= 9 && 0 <= d4 <= 9 && 0
                <= d5 <= 9,
    ;
    assert(f % 10 == d5) by (nonlinear_arith)
        requires
            f == d0 * 100_000 + d1 * 10_000 + d2 * 1_000 + d3 * 100 + d4 * 10 + d5,
            0 <= d0 <= 9 && 0 <= d1 <= 9 && 0 <= d2 <= 9 && 0 <= d3 <= 9 && 0 <= d4 <= 9 && 0
                <= d5 <= 9,
    ;
    assert(pad6_rep(f) =~= s);
}

/// A rendered height of a storable value stands at position `i` of `s`.
pub open spec fn num_at(s: Seq<u8>, i: int, x: int) -> bool {
    &&& -HEIGHT_LIMIT <= x <= HEIGHT_LIMIT
    &&& 0 <= i
    &&& i + num_rep(x).len() <= s.len()
    &&& s.subrange(i, i + num_rep(x).len()) == num_rep(x)
}

/// Parse one height written with exactly six fractional digits, in
/// canonical form; values beyond the storable height limit are rejected,
/// as is a minus sign on zero. Wherever a storable height stands in
/// canonical form, parsing succeeds and returns exactly it.
#[verifier::rlimit(90)]
#[verifier::spinoff_prover]
fn parse_num(bytes: &Vec<u8>, i: usize) -> (r: Option<(i64, usize)>)
    requires
        i <= bytes@.len(),
    ensures
        r matches Some(p) ==> -HEIGHT_LIMIT <= p.0 <= HEIGHT_LIMIT && i < p.1 <= bytes@.len()
            && bytes@.subrange(i as int, p.1 as int) == num_rep(p.0 as int),
        forall|x: int|
            #[trigger] num_at(bytes@, i as int, x) ==> (r matches Some(p) && p.0 == x && p.1 == i
                + num_rep(x).len()),
{
    let mut j: usize = i;
    let mut negative = false;
    if j < bytes.len() && bytes[j] == 45 {
        negative = true;
        j += 1;
    }
    let (int_part, j1) = match parse_dec(bytes, j) {
        Some(p) => p,
        None => {
            proof {
                assert forall|x: int| num_at(bytes@, i as int, x) implies false by {
                    lemma_num_shape(bytes@, i as int, x);
                    let a = if x >= 0 { x } else { -x };
                    let off: int = if x < 0 { 1int } else { 0int };
                    let ip = a / (SCALE as int);
                    let dl = dec_rep(ip).len() as int;
                    lemma_dec_rep_digits(ip);
                    assert(j == i + off);
                    assert(bytes@.subrange(j as int, (j as int) + dl)[0] == bytes@[j as int]);
                    assert(48 <= bytes@[j as int] <= 57);
                    assert(j < bytes@.len());
                    assert(bytes@[(j as int) + dl] == 46);
                    if bytes@[j as int] == 48 && (j as int) + 1 < bytes@.len() && 48 <= bytes@[(
                    j as int) + 1] <= 57 {
                        if ip >= 1 {
                            assert(bytes@[j as int] != 48);
                        }
                        assert(dl == 1);
                        assert(false);
                    }
                    assert(!(48 <= bytes@[(j as int) + dl] <= 57));
                }
            }
            return None;
        },
    };
    if int_part > 1_000 {
        proof {
            assert forall|x: int| num_at(bytes@, i as int, x) implies false by {
                lemma_num_shape(bytes@, i as int, x);
                let a = if x >= 0 { x } else { -x };
                let off: int = if x < 0 { 1int } else { 0int };
                let ip = a / (SCALE as int);
                let dl = dec_rep(ip).len() as int;
                assert(j == i + off);
                assert(bytes@[(j as int) + dl] == 46);
                lemma_dec_at_same_pos(bytes@, j as int, int_part as int, ip);
            }
        }
        return None;
    }
    let j2 = match expect_byte(bytes, j1, 46) {
        Some(j2) => j2,
        None => {
            proof {
                assert forall|x: int| num_at(bytes@, i as int, x) implies false by {
                    lemma_num_shape(bytes@, i as int, x);
                    let a = if x >= 0 { x } else { -x };
                    let off: int = if x < 0 { 1int } else { 0int };
                    let ip = a / (SCALE as int);
                    let dl = dec_rep(ip).len() as int;
                    assert(j == i + off);
                    assert(bytes@[(j as int) + dl] == 46);
                    lemma_dec_at_same_pos(bytes@, j as int, int_part as int, ip);
                    assert(j1 == (j as int) + dl);
                    assert(bytes@[j1 as int] == 46 && j1 < bytes@.len());
                }
            }
            return None;
        },
    };
    let mut frac: i64 = 0;
    let mut k: usize = 0;
    let mut j3: usize = j2;
    while k < 6
        invariant
            i <= j <= j1 < j2 <= j3 <= bytes@.len(),
            k == j3 - j2,
            k <= 6,
            0 <= frac < pow10(k as int),
            pow10(k as int) <= 1_000_000,
            frac == digits_val(bytes@.subrange(j2 as int, j3 as int)),
            forall|m: int| j2 <= m < j3 ==> 48 <= #[trigger] bytes@[m] <= 57,
            negative <==> (i < bytes@.len() && bytes@[i as int] == 45),
            j == if negative {
                i + 1
            } else {
                i as int
            },
            0 <= int_part <= 1_000,
            bytes@.subrange(j as int, j1 as int) == dec_rep(int_part as int),
            j1 == bytes@.len() || !(48 <= bytes@[j1 as int] <= 57),
            bytes@[j1 as int] == 46,
            j2 == j1 + 1,
        decreases 6 - k,
    {
        if j3 >= bytes.len() || bytes[j3] < 48 || bytes[j3] > 57 {
            proof {
                assert forall|x: int| num_at(bytes@, i as int, x) implies false by {
                    lemma_num_shape(bytes@, i as int, x);
                    let a = if x >= 0 { x } else { -x };
                    let off: int = if x < 0 { 1int } else { 0int };
                    let ip = a / (SCALE as int);
                    let dl = dec_rep(ip).len() as int;
                    assert(j == i + off);
                    assert(bytes@[(j as int) + dl] == 46);
                    lemma_dec_at_same_pos(bytes@, j as int, int_part as int, ip);
                    assert(j1 == (j as int) + dl);
                    assert(j2 == i + off + dl + 1);
                    let kk = (j3 as int) - (j2 as int);
                    assert(0 <= kk < 6);
                    assert(48 <= bytes@[i + off + dl + 1 + kk] <= 57);
                    assert(j3 < i + num_rep(x).len());
                }
            }
            return None;
        }
        proof {
            assert(pow10(k + 1) == 10 * pow10(k as int));
            lemma_pow10_values();
            lemma_pow10_mono(k + 1, 6);
            assert(bytes@.subrange(j2 as int, j3 + 1).drop_last() =~= bytes@.subrange(
                j2 as int,
                j3 as int,
            ));
            assert(bytes@.subrange(j2 as int, j3 + 1).last() == bytes@[j3 as int]);
        }
        frac = frac * 10 + ((bytes[j3] - 48) as i64);
        j3 += 1;
        k += 1;
    }
    proof {
        lemma_pow10_values();
    }
    let magnitude: i64 = int_part * SCALE + frac;
    if magnitude > HEIGHT_LIMIT {
        proof {
            assert forall|x: int| num_at(bytes@, i as int, x) implies false by {
                lemma_num_shape(bytes@, i as int, x);
                let a = if x >= 0 { x } else { -x };
                let off: int = if x < 0 { 1int } else { 0int };
                let ip = a / (SCALE as int);
                let dl = dec_rep(ip).len() as int;
                assert(j == i + off);
                assert(bytes@[(j as int) + dl] == 46);
                lemma_dec_at_same_pos(bytes@, j as int, int_part as int, ip);
                assert(j1 == (j as int) + dl);
                assert(j2 == i + off + dl + 1 && j3 == i + off + dl + 7);
                assert(frac == a % (SCALE as int));
                assert(magnitude == ip * (SCALE as int) + a % (SCALE as int));
                assert(ip * (SCALE as int) + a % (SCALE as int) == a);
            }
        }
        return None;
    }
    if negative && magnitude == 0 {
        proof {
            assert forall|x: int| num_at(bytes@, i as int, x) implies false by {
                lemma_num_shape(bytes@, i as int, x);
                let a = if x >= 0 { x } else { -x };
                let off: int = if x < 0 { 1int } else { 0int };
                let ip = a / (SCALE as int);
                let dl = dec_rep(ip).len() as int;
                if x >= 0 {
                    assert(48 <= bytes@[i as int] <= 57);
                    assert(!negative);
                } else {
                    assert(j == i + off);
                    assert(bytes@[(j as int) + dl] == 46);
                    lemma_dec_at_same_pos(bytes@, j as int, int_part as int, ip);
                    assert(j1 == (j as int) + dl);
                    assert(j2 == i + off + dl + 1 && j3 == i + off + dl + 7);
                    assert(frac == a % (SCALE as int));
                    assert(magnitude == ip * (SCALE as int) + a % (SCALE as int));
                    assert(ip * (SCALE as int) + a % (SCALE as int) == a);
                    assert(a >= 1);
                }
            }
        }
        return None;
    }
    let value = if negative {
        -magnitude
    } else {
        magnitude
    };
    proof {
        let fs = bytes@.subrange(j2 as int, j3 as int);
        assert(fs.len() == 6);
        assert forall|m: int| 0 <= m < 6 implies 48 <= #[trigger] fs[m] <= 57 by {
            assert(fs[m] == bytes@[j2 + m]);
        }
        lemma_pad6_of_digits(fs);
        let a = if value >= 0 { value as int } else { -(value as int) };
        assert(a == magnitude);
        assert(a / (SCALE as int) == int_part && a % (SCALE as int) == frac)
            by (nonlinear_arith)
            requires
                a == int_part * SCALE + frac,
                0 <= frac < SCALE,
                0 <= int_part,
        ;
        if negative {
            assert(bytes@.subrange(i as int, i + 1) =~= seq![45u8]);
            assert(bytes@.subrange(i as int, j3 as int) =~= bytes@.subrange(i as int, i + 1)
                + bytes@.subrange(j as int, j1 as int) + bytes@.subrange(j1 as int, j2 as int)
                + bytes@.subrange(j2 as int, j3 as int));
        } else {
            assert(bytes@.subrange(i as int, j3 as int) =~= bytes@.subrange(
                j as int,
                j1 as int,
            ) + bytes@.subrange(j1 as int, j2 as int) + bytes@.subrange(j2 as int, j3 as int));
        }
        assert(bytes@.subrange(i as int, j3 as int) == num_rep(value as int));
        assert forall|x: int| num_at(bytes@, i as int, x) implies value == x && j3 == i
            + num_rep(x).len() by {
            lemma_num_at_same_pos(bytes@, i as int, value as int, x);
        }
    }
    Some((value, j3))
}

/// Match a whole literal piece at `i`.
fn expect_lit(bytes: &Vec<u8>, i: usize, lit: &Vec<u8>) -> (r: Option<usize>)
    requires
        i <= bytes@.len(),
    ensures
        r matches Some(j) ==> i <= j <= bytes@.len() && j == i + lit@.len()
            && bytes@.subrange(i as int, j as int) == lit@,
        i + lit@.len() <= bytes@.len() && bytes@.subrange(i as int, i + lit@.len()) == lit@
            ==> r is Some,
{
    let n = bytes.len();
    let mut k: usize = 0;
    while k < lit.len()
        invariant
            n == bytes@.len(),
            i <= n,
            0 <= k <= lit@.len(),
            i + k <= n,
            forall|m: int| 0 <= m < k ==> bytes@[i + m] == lit@[m],
        decreases lit@.len() - k,
    {
        if n - i <= k {
            proof {
                if i + lit@.len() <= bytes@.len() && bytes@.subrange(i as int, i + lit@.len())
                    == lit@ {
                    assert(bytes@.subrange(i as int, i + lit@.len())[k as int] == bytes@[i + k]);
                }
            }
            return None;
        }
        if bytes[i + k] != lit[k] {
            proof {
                if i + lit@.len() <= bytes@.len() && bytes@.subrange(i as int, i + lit@.len())
                    == lit@ {
                    assert(bytes@.subrange(i as int, i + lit@.len())[k as int] == bytes@[i + k]);
                }
            }
            return None;
        }
        k += 1;
    }
    proof {
        assert(bytes@.subrange(i as int, i + k) =~= lit@);
    }
    Some(i + k)
}

/// Small powers of ten, unfolded.
proof fn lemma_pow10_values()
    ensures
        pow10(6) == 1_000_000,
        pow10(7) == 10_000_000,
{
    assert(pow10(0) == 1);
    assert(pow10(1) == 10);
    assert(pow10(2) == 100);
    assert(pow10(3) == 1_000);
    assert(pow10(4) == 10_000);
    assert(pow10(5) == 100_000);
    assert(pow10(6) == 1_000_000);
    assert(pow10(7) == 10_000_000);
}

/// `pow10` grows with its exponent.
proof fn lemma_pow10_mono(a: int, b: int)
    requires
        0 <= a <= b,
    ensures
        pow10(a) <= pow10(b),
    decreases b - a,
{
    if a < b {
        lemma_pow10_mono(a, b - 1);
        assert(pow10(b) == 10 * pow10(b - 1));
        lemma_pow10_pos(b - 1);
    }
}

/// `pow10` is always positive.
proof fn lemma_pow10_pos(n: int)
    ensures
        pow10(n) >= 1,
    decreases n,
{
    if n > 0 {
        lemma_pow10_pos(n - 1);
    }
}

/// The bytes of the literal `lit`, built for matching.
fn lit_vec_name_open() -> (v: Vec<u8>)
    ensures
        v@ == lit_name_open(),
{
    let mut v: Vec<u8> = Vec::new();
    push_byte(&mut v, 110);
    push_byte(&mut v, 97);
    push_byte(&mut v, 109);
    push_byte(&mut v, 101);
    push_byte(&mut v, 32);
    push_byte(&mut v, 61);
    push_byte(&mut v, 32);
    push_byte(&mut v, 34);
    proof {
        assert(v@ =~= lit_name_open());
    }
    v
}

fn lit_vec_width_open() -> (v: Vec<u8>)
    ensures
        v@ == lit_width_open(),
{
    let mut v: Vec<u8> = Vec::new();
    push_byte(&mut v, 34);
    push_byte(&mut v, 10);
    push_byte(&mut v, 119);
    push_byte(&mut v, 105);
    push_byte(&mut v, 100);
    push_byte(&mut v, 116);
    push_byte(&mut v, 104);
    push_byte(&mut v, 32);
    push_byte(&mut v, 61);
    push_byte(&mut v, 32);
    proof {
        assert(v@ =~= lit_width_open());
    }
    v
}

fn lit_vec_height_open() -> (v: Vec<u8>)
    ensures
        v@ == lit_height_open(),
{
    let mut v: Vec<u8> = Vec::new();
    push_byte(&mut v, 10);
    push_byte(&mut v, 104);
    push_byte(&mut v, 101);
    push_byte(&mut v, 105);
    push_byte(&mut v, 103);
    push_byte(&mut v, 104);
    push_byte(&mut v, 116);
    push_byte(&mut v, 32);
    push_byte(&mut v, 61);
    push_byte(&mut v, 32);
    proof {
        assert(v@ =~= lit_height_open());
    }
    v
}

fn lit_vec_heights_open() -> (v: Vec<u8>)
    ensures
        v@ == lit_heights_open(),
{
    let mut v: Vec<u8> = Vec::new();
    push_byte(&mut v, 10);
    push_byte(&mut v, 104);
    push_byte(&mut v, 101);
    push_byte(&mut v, 105);
    push_byte(&mut v, 103);
    push_byte(&mut v, 104);
    push_byte(&mut v, 116);
    push_byte(&mut v, 115);
    push_byte(&mut v, 32);
    push_byte(&mut v, 61);
    push_byte(&mut v, 32);
    push_byte(&mut v, 91);
    proof {
        assert(v@ =~= lit_heights_open());
    }
    v
}

/// Some storable level's canonical document is exactly `s`.
pub open spec fn canonical_doc(s: Seq<u8>) -> bool {
    exists|lw: Level|
        lw.wf() && name_bytes_ok(vstd::utf8::encode_utf8(lw.name@)) && s
            == #[trigger] render_level_spec(&lw)
}

/// Splitting off a known prefix of a suffix of `s` advances the suffix.
proof fn lemma_skip_advance(s: Seq<u8>, i: int, a: Seq<u8>, b: Seq<u8>)
    requires
        0 <= i <= s.len(),
        s.skip(i) == a + b,
    ensures
        i + a.len() <= s.len(),
        s.skip(i + a.len()) == b,
        s.subrange(i, i + a.len()) == a,
        forall|m: int| 0 <= m < a.len() ==> #[trigger] s[i + m] == a[m],
        a.len() >= 1 ==> s[i] == a[0],
        a.len() >= 2 ==> s[i + 1] == a[1],
{
    assert((a + b).len() == a.len() + b.len());
    assert(s.skip(i).len() == s.len() - i);
    assert forall|m: int| 0 <= m < a.len() implies #[trigger] s[i + m] == a[m] by {
        assert(s.skip(i)[m] == s[i + m]);
        assert((a + b)[m] == a[m]);
    }
    assert(s.subrange(i, i + a.len()) =~= a);
    assert forall|m: int| 0 <= m < b.len() implies s.skip(i + a.len())[m] == b[m] by {
        assert(s.skip(i + a.len())[m] == s[i + a.len() + m]);
        assert(s.skip(i)[a.len() + m] == s[i + a.len() + m]);
        assert((a + b)[a.len() + m] == b[m]);
    }
    assert(s.skip(i + a.len()) =~= b);
    if a.len() >= 1 {
        assert(s[i + 0] == a[0]);
    }
    if a.len() >= 2 {
        assert(s[i + 1] == a[1]);
    }
}

/// Where each piece of the canonical document stands.
#[verifier::rlimit(80)]
#[verifier::spinoff_prover]
proof fn lemma_render_decomposition(l: &Level, s: Seq<u8>)
    requires
        s == render_level_spec(l),
    ensures
        ({
            let n = vstd::utf8::encode_utf8(l.name@);
            let dw = dec_rep(l.width as int);
            let dh = dec_rep(l.height as int);
            let rr = rows_rep(l.heights@, l.width as int, l.height as int);
            let g2 = 8 + n.len() as int;
            let g3 = g2 + 10;
            let g4 = g3 + dw.len();
            let g5 = g4 + 10;
            let g6 = g5 + dh.len();
            let g7 = g6 + 12;
            let g8 = g7 + rr.len();
            &&& s.len() == g8 + 2
            &&& s.subrange(0, 8) == lit_name_open()
            &&& s.subrange(8, g2) == n
            &&& s.subrange(g2, g3) == lit_width_open()
            &&& s.subrange(g3, g4) == dw
            &&& s.subrange(g4, g5) == lit_height_open()
            &&& s.subrange(g5, g6) == dh
            &&& s.subrange(g6, g7) == lit_heights_open()
            &&& s.subrange(g7, g8) == rr
            &&& s.subrange(g8, g8 + 2) == lit_close()
            &&& s.skip(g7) == rr + lit_close()
        }),
{
    let n = vstd::utf8::encode_utf8(l.name@);
    let dw = dec_rep(l.width as int);
    let dh = dec_rep(l.height as int);
    let rr = rows_rep(l.heights@, l.width as int, l.height as int);
    let t8 = rr + lit_close();
    let t7 = lit_heights_open() + t8;
    let t6 = dh + t7;
    let t5 = lit_height_open() + t6;
    let t4 = dw + t5;
    let t3 = lit_width_open() + t4;
    let t2 = n + t3;
    assert(s =~= lit_name_open() + t2);
    assert(s.skip(0) =~= s);
    lemma_skip_advance(s, 0, lit_name_open(), t2);
    lemma_skip_advance(s, 8, n, t3);
    let g2 = 8 + n.len() as int;
    lemma_skip_advance(s, g2, lit_width_open(), t4);
    let g3 = g2 + 10;
    lemma_skip_advance(s, g3, dw, t5);
    let g4 = g3 + dw.len();
    lemma_skip_advance(s, g4, lit_height_open(), t6);
    let g5 = g4 + 10;
    lemma_skip_advance(s, g5, dh, t7);
    let g6 = g5 + dh.len();
    lemma_skip_advance(s, g6, lit_heights_open(), t8);
    let g7 = g6 + 12;
    lemma_skip_advance(s, g7, rr, lit_close());
    let g8 = g7 + rr.len();
    assert(s.skip(g8) == lit_close());
    assert(s.subrange(g8, g8 + 2) =~= lit_close());
    assert(s.len() == g8 + 2) by {
        assert(s.skip(g8).len() == s.len() - g8);
    }
}

/// Restricting the cell renderings to a prefix of the grid reads only
/// that prefix of the heights, so later cells do not disturb it.
proof fn lemma_row_cells_stable(hs1: Seq<i64>, hs2: Seq<i64>, w: int, r: int, q: int)
    requires
        0 <= w,
        0 <= r,
        0 <= q,
        r * w + q <= hs1.len() <= hs2.len(),
        forall|m: int| 0 <= m < hs1.len() ==> hs1[m] == #[trigger] hs2[m],
    ensures
        row_cells_rep(hs2, w, r, q) == row_cells_rep(hs1, w, r, q),
    decreases q,
{
    if q > 1 {
        lemma_row_cells_stable(hs1, hs2, w, r, q - 1);
    }
}

/// The rendering of the first `r` rows reads only the first `r * w`
/// heights.
proof fn lemma_rows_stable(hs1: Seq<i64>, hs2: Seq<i64>, w: int, r: int)
    requires
        0 <= w,
        0 <= r,
        r * w <= hs1.len() <= hs2.len(),
        forall|m: int| 0 <= m < hs1.len() ==> hs1[m] == #[trigger] hs2[m],
    ensures
        rows_rep(hs2, w, r) == rows_rep(hs1, w, r),
    decreases r,
{
    if r > 0 {
        assert((r - 1) * w + w == r * w) by (nonlinear_arith);
        assert((r - 1) * w >= 0) by (nonlinear_arith)
            requires
                r >= 1,
                w >= 0,
        ;
        lemma_rows_stable(hs1, hs2, w, r - 1);
        lemma_row_cells_stable(hs1, hs2, w, r - 1, w);
    }
}

/// Parse the bracketed height rows starting at `start`: the verified core
/// of the heights field. When the suffix at `start` is the canonical row
/// block of the height grid `hslw` (signalled by `has`), parsing succeeds
/// and returns exactly that grid.
#[verifier::rlimit(100)]
#[verifier::spinoff_prover]
#[verifier::loop_isolation(false)]
fn parse_heights(
    bytes: &Vec<u8>,
    start: usize,
    w: usize,
    h: usize,
    Ghost(has): Ghost<bool>,
    Ghost(hslw): Ghost<Seq<i64>>,
) -> (r: Option<(Vec<i64>, usize)>)
    requires
        start <= bytes@.len(),
        1 <= w <= MAX_EXTENT,
        1 <= h <= MAX_EXTENT,
        has ==> hslw.len() == (w as int) * (h as int),
        has ==> (forall|m: int|
            0 <= m < hslw.len() ==> -HEIGHT_LIMIT <= #[trigger] hslw[m] <= HEIGHT_LIMIT),
        has ==> bytes@.skip(start as int) == rows_tail(hslw, w as int, 0, h as int)
            + lit_close(),
    ensures
        r matches Some(p) ==> {
            &&& p.0@.len() == (w as int) * (h as int)
            &&& (forall|m: int|
                0 <= m < p.0@.len() ==> -HEIGHT_LIMIT <= #[trigger] p.0@[m] <= HEIGHT_LIMIT)
            &&& start <= p.1 <= bytes@.len()
            &&& bytes@.subrange(start as int, p.1 as int) == rows_rep(p.0@, w as int, h as int)
        },
        has ==> (r matches Some(p) && p.0@ == hslw && bytes@.skip(p.1 as int) == lit_close()),
{
    let mut i = start;
    let mut heights: Vec<i64> = Vec::new();
    proof {
        if has {
            assert(heights@ =~= hslw.take(0 * (w as int))) by {
                assert(0 * (w as int) == 0) by (nonlinear_arith);
            }
        }
    }
    let mut r: usize = 0;
    while r < h
        invariant
            1 <= w <= MAX_EXTENT,
            1 <= h <= MAX_EXTENT,
            0 <= r <= h,
            start <= i <= bytes@.len(),
            heights@.len() == r * w,
            forall|m: int|
                0 <= m < heights@.len() ==> -HEIGHT_LIMIT <= #[trigger] heights@[m]
                    <= HEIGHT_LIMIT,
            bytes@.subrange(start as int, i as int) == rows_rep(heights@, w as int, r as int),
            has ==> heights@ == hslw.take((r as int) * w as int),
            has ==> bytes@.skip(i as int) == rows_tail(hslw, w as int, r as int, h as int) + lit_close(),
        decreases h - r,
    {
        let ghost row_start_heights = heights@;
        let ghost rest_rows = rows_tail(hslw, w as int, (r as int) + 1, h as int) + lit_close();
        proof {
            if has {
                assert(rows_tail(hslw, w as int, r as int, h as int) == (if r > 0 {
                    sep_rep()
                } else {
                    Seq::<u8>::empty()
                }) + row_rep(hslw, w as int, r as int) + rows_tail(hslw, w as int, (r as int) + 1, h as int));
            }
        }
        let row_sep_end: usize;
        if r > 0 {
            proof {
                if has {
                    assert(rows_tail(hslw, w as int, r as int, h as int) + lit_close() =~= sep_rep() + (
                    row_rep(hslw, w as int, r as int) + rest_rows));
                    lemma_skip_advance(
                        bytes@,
                        i as int,
                        sep_rep(),
                        row_rep(hslw, w as int, r as int) + rest_rows,
                    );
                }
            }
            let ia = match expect_byte(bytes, i, 44) {
                Some(j) => j,
                None => {
                    proof {
                        if has {
                            assert(false);
                        }
                    }
                    return None;
                },
            };
            let ib = match expect_byte(bytes, ia, 32) {
                Some(j) => j,
                None => {
                    proof {
                        if has {
                            assert(false);
                        }
                    }
                    return None;
                },
            };
            row_sep_end = ib;
            proof {
                assert(bytes@.subrange(i as int, ib as int) =~= sep_rep());
            }
        } else {
            row_sep_end = i;
            proof {
                if has {
                    assert(rows_tail(hslw, w as int, r as int, h as int) + lit_close() =~= row_rep(
                        hslw,
                        w as int,
                        r as int,
                    ) + rest_rows);
                }
            }
        }
        let ghost row_prefix_end = i;
        proof {
            if has {
                assert(bytes@.skip(row_sep_end as int) == row_rep(hslw, w as int, r as int)
                    + rest_rows);
                assert(row_rep(hslw, w as int, r as int) + rest_rows =~= seq![91u8] + (row_cells_rep(
                    hslw,
                    w as int,
                    r as int,
                    w as int,
                ) + (seq![93u8] + rest_rows)));
                lemma_skip_advance(
                    bytes@,
                    row_sep_end as int,
                    seq![91u8],
                    row_cells_rep(hslw, w as int, r as int, w as int) + (seq![93u8] + rest_rows),
                );
                lemma_cells_decomp(hslw, w as int, r as int, 0);
                assert(row_cells_rep(hslw, w as int, r as int, 0) =~= Seq::<u8>::empty());
                assert(row_cells_rep(hslw, w as int, r as int, w as int) =~= cells_tail(
                    hslw,
                    w as int,
                    r as int,
                    0,
                ));
            }
        }
        let row_mark = match expect_byte(bytes, row_sep_end, 91) {
            Some(j) => j,
            None => {
                proof {
                    if has {
                        assert(false);
                    }
                }
                return None;
            },
        };
        i = row_mark;
        let mut q: usize = 0;
        while q < w
            invariant
                1 <= w <= MAX_EXTENT,
                0 <= q <= w,
                r < h,
                row_mark <= i <= bytes@.len(),
                heights@.len() == r * w + q,
                row_start_heights.len() == r * w,
                forall|m: int|
                    0 <= m < row_start_heights.len() ==> row_start_heights[m]
                        == #[trigger] heights@[m],
                forall|m: int|
                    0 <= m < heights@.len() ==> -HEIGHT_LIMIT <= #[trigger] heights@[m]
                        <= HEIGHT_LIMIT,
                bytes@.subrange(row_mark as int, i as int) == row_cells_rep(
                    heights@,
                    w as int,
                    r as int,
                    q as int,
                ),
                has ==> heights@ == hslw.take((r as int) * w as int + q as int),
                has ==> bytes@.skip(i as int) == cells_tail(hslw, w as int, r as int, q as int) + (
                seq![93u8] + rest_rows),
            decreases w - q,
        {
            let ghost cell_value = hslw[(r as int) * w as int + q as int] as int;
            proof {
                if has {
                    assert(0 <= (r as int) * w as int + (q as int) && (r as int) * w as int + (q as int)
                        < hslw.len()) by (nonlinear_arith)
                        requires
                            0 <= (r as int) && (r as int) < h as int,
                            0 <= (q as int) && (q as int) < w as int,
                            hslw.len() == w as int * h as int,
                    ;
                    assert(-HEIGHT_LIMIT <= cell_value <= HEIGHT_LIMIT);
                    assert(cells_tail(hslw, w as int, r as int, q as int) == (if q > 0 {
                        sep_rep()
                    } else {
                        Seq::<u8>::empty()
                    }) + num_rep(cell_value) + cells_tail(hslw, w as int, r as int, (q as int) + 1));
                }
            }
            let cell_start: usize;
            if q > 0 {
                proof {
                    if has {
                        assert(cells_tail(hslw, w as int, r as int, q as int) + (seq![93u8]
                            + rest_rows) =~= sep_rep() + (num_rep(cell_value) + (cells_tail(
                            hslw,
                            w as int,
                            r as int,
                            (q as int) + 1,
                        ) + (seq![93u8] + rest_rows))));
                        lemma_skip_advance(
                            bytes@,
                            i as int,
                            sep_rep(),
                            num_rep(cell_value) + (cells_tail(hslw, w as int, r as int, (q as int) + 1)
                                + (seq![93u8] + rest_rows)),
                        );
                    }
                }
                let ia = match expect_byte(bytes, i, 44) {
                    Some(j) => j,
                    None => {
                        proof {
                            if has {
                                assert(false);
                            }
                        }
                        return None;
                    },
                };
                let ib = match expect_byte(bytes, ia, 32) {
                    Some(j) => j,
                    None => {
                        proof {
                            if has {
                                assert(false);
                            }
                        }
                        return None;
                    },
                };
                proof {
                    assert(bytes@.subrange(i as int, ib as int) =~= sep_rep());
                }
                cell_start = ib;
            } else {
                cell_start = i;
                proof {
                    if has {
                        assert(cells_tail(hslw, w as int, r as int, q as int) + (seq![93u8]
                            + rest_rows) =~= num_rep(cell_value) + (cells_tail(
                            hslw,
                            w as int,
                            r as int,
                            (q as int) + 1,
                        ) + (seq![93u8] + rest_rows)));
                    }
                }
            }
            let ghost cells_so_far = bytes@.subrange(row_mark as int, i as int);
            proof {
                if has {
                    lemma_skip_advance(
                        bytes@,
                        cell_start as int,
                        num_rep(cell_value),
                        cells_tail(hslw, w as int, r as int, (q as int) + 1) + (seq![93u8]
                            + rest_rows),
                    );
                    assert(num_at(bytes@, cell_start as int, cell_value));
                }
            }
            let (value, inext) = match parse_num(bytes, cell_start) {
                Some(p) => p,
                None => {
                    proof {
                        if has {
                            assert(false);
                        }
                    }
                    return None;
                },
            };
            let ghost old_heights = heights@;
            heights.push(value);
            proof {
                lemma_row_cells_stable(old_heights, heights@, w as int, r as int, q as int);
                assert(heights@[(r * w + q) as int] == value);
                assert(bytes@.subrange(row_mark as int, inext as int) =~= bytes@.subrange(
                    row_mark as int,
                    i as int,
                ) + bytes@.subrange(i as int, cell_start as int) + bytes@.subrange(
                    cell_start as int,
                    inext as int,
                ));
                assert((r * w + (q + 1) - 1) as int == (r * w + q) as int);
                assert(bytes@.subrange(row_mark as int, inext as int) == row_cells_rep(
                    heights@,
                    w as int,
                    r as int,
                    (q + 1) as int,
                ));
                if has {
                    assert(value == cell_value && inext == cell_start + num_rep(
                        cell_value,
                    ).len());
                    assert(heights@ =~= hslw.take((r as int) * w as int + (q as int) + 1));
                }
            }
            i = inext;
            q += 1;
        }
        proof {
            if has {
                assert(cells_tail(hslw, w as int, r as int, w as int) =~= Seq::<u8>::empty());
                assert(cells_tail(hslw, w as int, r as int, q as int) + (seq![93u8] + rest_rows)
                    =~= seq![93u8] + rest_rows);
                lemma_skip_advance(bytes@, i as int, seq![93u8], rest_rows);
            }
        }
        let iclose = match expect_byte(bytes, i, 93) {
            Some(j) => j,
            None => {
                proof {
                    if has {
                        assert(false);
                    }
                }
                return None;
            },
        };
        proof {
            lemma_rows_stable(row_start_heights, heights@, w as int, r as int);
            assert(bytes@.subrange(row_mark as int, i as int) == row_cells_rep(
                heights@,
                w as int,
                r as int,
                w as int,
            ));
            assert(bytes@.subrange(row_sep_end as int, iclose as int) =~= seq![91u8]
                + bytes@.subrange(row_mark as int, i as int) + seq![93u8]);
            assert(bytes@.subrange(row_sep_end as int, iclose as int) == row_rep(
                heights@,
                w as int,
                r as int,
            ));
            if r > 0 {
                assert(bytes@.subrange(start as int, iclose as int) =~= bytes@.subrange(
                    start as int,
                    row_prefix_end as int,
                ) + bytes@.subrange(row_prefix_end as int, row_sep_end as int)
                    + bytes@.subrange(row_sep_end as int, iclose as int));
                assert(bytes@.subrange(start as int, iclose as int) == rows_rep(
                    heights@,
                    w as int,
                    (r + 1) as int,
                ));
            } else {
                assert(bytes@.subrange(start as int, iclose as int) =~= bytes@.subrange(
                    row_sep_end as int,
                    iclose as int,
                ));
                assert(bytes@.subrange(start as int, iclose as int) == rows_rep(
                    heights@,
                    w as int,
                    (r + 1) as int,
                ));
            }
            assert((r + 1) * w == r * w + w) by (nonlinear_arith);
            if has {
                assert(((r as int) + 1) * w as int == (r as int) * w as int + w as int) by (nonlinear_arith);
                assert(heights@ == hslw.take(((r as int) + 1) * w as int));
            }
        }
        i = iclose;
        r += 1;
    }
    proof {
        if has {
            assert(heights@ =~= hslw) by {
                assert((h as int) * (w as int) == (w as int) * (h as int)) by (nonlinear_arith);
                assert(hslw.take((h as int) * (w as int)) =~= hslw);
            }
            assert(rows_tail(hslw, w as int, h as int, h as int) =~= Seq::<u8>::empty());
            assert(rows_tail(hslw, w as int, r as int, h as int) + lit_close() =~= lit_close());
        }
    }
    proof {
        assert((h as int) * (w as int) == (w as int) * (h as int)) by (nonlinear_arith);
    }
    Some((heights, i))
}

/// Parse a canonical level document. A malformed document — wrong
/// structure, a name with forbidden bytes or invalid UTF-8, dimensions
/// outside the storable range, a height beyond the storable limit, or
/// trailing bytes — yields `None`. A well-formed one yields a well-formed
/// level whose canonical rendering is exactly the input, so saving a
/// loaded level reproduces the document byte for byte; and conversely,
/// whenever the input is the canonical rendering of some storable level,
/// parsing succeeds. Only the canonical form is accepted: a document that
/// merely means the same in a more general notation is rejected.
#[verifier::rlimit(100)]
#[verifier::spinoff_prover]
#[verifier::loop_isolation(false)]
pub fn parse_level(bytes: &Vec<u8>) -> (r: Option<Level>)
    ensures
        r matches Some(l) ==> l.wf() && name_bytes_ok(vstd::utf8::encode_utf8(l.name@))
            && bytes@ == render_level_spec(&l),
        canonical_doc(bytes@) ==> r is Some,
{
    let ghost has = canonical_doc(bytes@);
    let ghost lw = choose|lw: Level|
        lw.wf() && name_bytes_ok(vstd::utf8::encode_utf8(lw.name@)) && bytes@
            == render_level_spec(&lw);
    let ghost nlw = vstd::utf8::encode_utf8(lw.name@);
    let ghost wlw = lw.width as int;
    let ghost hlw = lw.height as int;
    let ghost hslw = lw.heights@;
    let ghost g2 = 8 + nlw.len() as int;
    let ghost g3 = g2 + 10;
    let ghost g4 = g3 + dec_rep(wlw).len() as int;
    let ghost g5 = g4 + 10;
    let ghost g6 = g5 + dec_rep(hlw).len() as int;
    let ghost g7 = g6 + 12;
    let ghost g8 = g7 + rows_rep(hslw, wlw, hlw).len() as int;
    proof {
        if has {
            lemma_render_decomposition(&lw, bytes@);
            lemma_dec_rep_digits(wlw);
            lemma_dec_rep_digits(hlw);
            lemma_dec_rep_len_small(wlw);
            lemma_dec_rep_len_small(hlw);
            lemma_dec_rep_leading(wlw);
            lemma_dec_rep_leading(hlw);
        }
    }
    let lit_open = lit_vec_name_open();
    let p1 = match expect_lit(bytes, 0, &lit_open) {
        Some(j) => j,
        None => {
            proof {
                if has {
                    assert(false);
                }
            }
            return None;
        },
    };
    let mut i = p1;
    let mut name_bytes: Vec<u8> = Vec::new();
    while i < bytes.len() && bytes[i] != 34
        invariant
            p1 <= i <= bytes@.len(),
            name_bytes_ok(name_bytes@),
            name_bytes@ == bytes@.subrange(p1 as int, i as int),
            has ==> i <= g2,
        decreases bytes@.len() - i,
    {
        proof {
            if has {
                assert(bytes@.subrange(g2, g3)[0] == bytes@[g2]);
                assert(i < g2);
                assert(bytes@.subrange(8, g2)[i - 8] == bytes@[i as int]);
            }
        }
        let b = bytes[i];
        if b == 92 || b < 32 {
            proof {
                if has {
                    assert(false);
                }
            }
            return None;
        }
        push_byte(&mut name_bytes, b);
        i += 1;
        proof {
            assert(name_bytes@ =~= bytes@.subrange(p1 as int, i as int));
        }
    }
    proof {
        if has {
            if i < g2 {
                assert(bytes@.subrange(8, g2)[i - 8] == bytes@[i as int]);
                assert(false);
            }
        }
    }
    let p2 = i;
    let ghost name_seq = name_bytes@;
    let name = match bytes_to_string(name_bytes) {
        Some(s) => s,
        None => {
            proof {
                if has {
                    vstd::utf8::encode_utf8_valid_utf8(lw.name@);
                    assert(false);
                }
            }
            return None;
        },
    };
    let lit_w = lit_vec_width_open();
    let p3 = match expect_lit(bytes, p2, &lit_w) {
        Some(j) => j,
        None => {
            proof {
                if has {
                    assert(false);
                }
            }
            return None;
        },
    };
    let (width, p4) = match parse_dec(bytes, p3) {
        Some(p) => p,
        None => {
            proof {
                if has {
                    assert(bytes@.subrange(g3, g4)[0] == bytes@[g3]);
                    assert(bytes@.subrange(g4, g5)[0] == bytes@[g4]);
                    let dlw = dec_rep(wlw).len() as int;
                    assert(bytes@[g3 + dlw] == 10);
                    assert(!(48 <= bytes@[g3 + dlw] <= 57));
                    assert(false);
                }
            }
            return None;
        },
    };
    proof {
        if has {
            assert(bytes@.subrange(g4, g5)[0] == bytes@[g4]);
            lemma_dec_at_same_pos(bytes@, g3, width as int, wlw);
            assert(width == wlw && p4 == g4);
        }
    }
    if width < 1 || width > (MAX_EXTENT as i64) {
        proof {
            if has {
                assert(false);
            }
        }
        return None;
    }
    let lit_h = lit_vec_height_open();
    let p5 = match expect_lit(bytes, p4, &lit_h) {
        Some(j) => j,
        None => {
            proof {
                if has {
                    assert(false);
                }
            }
            return None;
        },
    };
    let (height, p6) = match parse_dec(bytes, p5) {
        Some(p) => p,
        None => {
            proof {
                if has {
                    assert(bytes@.subrange(g5, g6)[0] == bytes@[g5]);
                    assert(bytes@.subrange(g6, g7)[0] == bytes@[g6]);
                    let dlh = dec_rep(hlw).len() as int;
                    assert(bytes@[g5 + dlh] == 10);
                    assert(!(48 <= bytes@[g5 + dlh] <= 57));
                    assert(false);
                }
            }
            return None;
        },
    };
    proof {
        if has {
            assert(bytes@.subrange(g6, g7)[0] == bytes@[g6]);
            lemma_dec_at_same_pos(bytes@, g5, height as int, hlw);
            assert(height == hlw && p6 == g6);
        }
    }
    if height < 1 || height > (MAX_EXTENT as i64) {
        proof {
            if has {
                assert(false);
            }
        }
        return None;
    }
    let lit_hs = lit_vec_heights_open();
    let p7 = match expect_lit(bytes, p6, &lit_hs) {
        Some(j) => j,
        None => {
            proof {
                if has {
                    assert(false);
                }
            }
            return None;
        },
    };
    i = p7;
    let w: usize = width as usize;
    let h: usize = height as usize;
    proof {
        if has {
            assert(w as int == wlw && h as int == hlw && p7 == g7);
            lemma_rows_decomp(hslw, wlw, 0, hlw);
            assert(rows_rep(hslw, wlw, 0) =~= Seq::<u8>::empty());
            assert(rows_rep(hslw, wlw, hlw) + lit_close() =~= rows_tail(hslw, wlw, 0, hlw)
                + lit_close());
            assert(bytes@.skip(i as int) == rows_tail(hslw, wlw, 0, hlw) + lit_close());
            assert(hslw.take(0) =~= Seq::<i64>::empty());
            assert((wlw as int) * (hlw as int) == (hlw as int) * (wlw as int))
                by (nonlinear_arith);
        }
    }
    proof {
        if has {
            assert(hslw.len() == (w as int) * (h as int));
            assert(bytes@.skip(p7 as int) == rows_tail(hslw, w as int, 0, h as int)
                + lit_close());
        }
    }
    let (heights, hend) = match parse_heights(bytes, p7, w, h, Ghost(has), Ghost(hslw)) {
        Some(p) => p,
        None => {
            proof {
                if has {
                    assert(false);
                }
            }
            return None;
        },
    };
    i = hend;
    proof {
        if has {
            assert(lit_close() =~= seq![93u8] + seq![10u8]);
            lemma_skip_advance(bytes@, i as int, seq![93u8], seq![10u8]);
            assert(seq![10u8] =~= seq![10u8] + Seq::<u8>::empty());
            lemma_skip_advance(bytes@, (i as int) + 1, seq![10u8], Seq::<u8>::empty());
            assert(bytes@.skip((i as int) + 2).len() == 0);
        }
    }
    let p8 = i;
    let i9 = match expect_byte(bytes, p8, 93) {
        Some(j) => j,
        None => {
            proof {
                if has {
                    assert(false);
                }
            }
            return None;
        },
    };
    let i10 = match expect_byte(bytes, i9, 10) {
        Some(j) => j,
        None => {
            proof {
                if has {
                    assert(false);
                }
            }
            return None;
        },
    };
    if i10 != bytes.len() {
        proof {
            if has {
                assert(false);
            }
        }
        return None;
    }
    let level = Level { name, width: width as i32, height: height as i32, heights };
    proof {
        assert((h as int) * (w as int) == (w as int) * (h as int)) by (nonlinear_arith);
        assert(name_bytes_ok(vstd::utf8::encode_utf8(level.name@)));
        assert(bytes@.subrange(p8 as int, i10 as int) =~= lit_close());
        assert(bytes@ =~= bytes@.subrange(0, p1 as int) + bytes@.subrange(p1 as int, p2 as int)
            + bytes@.subrange(p2 as int, p3 as int) + bytes@.subrange(p3 as int, p4 as int)
            + bytes@.subrange(p4 as int, p5 as int) + bytes@.subrange(p5 as int, p6 as int)
            + bytes@.subrange(p6 as int, p7 as int) + bytes@.subrange(p7 as int, p8 as int)
            + bytes@.subrange(p8 as int, i10 as int));
        assert(bytes@ == render_level_spec(&level));
    }
    Some(level)
}

/// Every byte of a canonical decimal is a digit.
proof fn lemma_dec_rep_digits(v: int)
    requires
        v >= 0,
    ensures
        dec_rep(v).len() >= 1,
        forall|m: int| 0 <= m < dec_rep(v).len() ==> 48 <= #[trigger] dec_rep(v)[m] <= 57,
    decreases v,
{
    if v > 9 {
        lemma_dec_rep_digits(v / 10);
    }
}

/// A canonical decimal determines its value.
proof fn lemma_dec_rep_injective(a: int, b: int)
    requires
        a >= 0,
        b >= 0,
        dec_rep(a) == dec_rep(b),
    ensures
        a == b,
    decreases a,
{
    if a <= 9 && b <= 9 {
        assert(dec_rep(a)[0] == digit_byte(a) && dec_rep(b)[0] == digit_byte(b));
    } else if a <= 9 {
        lemma_dec_rep_digits(b / 10);
        assert(dec_rep(b).len() >= 2);
    } else if b <= 9 {
        lemma_dec_rep_digits(a / 10);
        assert(dec_rep(a).len() >= 2);
    } else {
        assert(dec_rep(a).last() == digit_byte(a % 10));
        assert(dec_rep(b).last() == digit_byte(b % 10));
        assert((dec_rep(a / 10) + seq![digit_byte(a % 10)]).drop_last() =~= dec_rep(a / 10));
        assert((dec_rep(b / 10) + seq![digit_byte(b % 10)]).drop_last() =~= dec_rep(b / 10));
        lemma_dec_rep_injective(a / 10, b / 10);
        assert(a == (a / 10) * 10 + a % 10 && b == (b / 10) * 10 + b % 10);
    }
}

/// A document that splits as a stop-free prefix followed by the stop byte
/// splits that way in only one place.
proof fn lemma_first_stop_split(
    s: Seq<u8>,
    a1: Seq<u8>,
    t1: Seq<u8>,
    a2: Seq<u8>,
    t2: Seq<u8>,
    stop: u8,
)
    requires
        s == a1 + t1,
        s == a2 + t2,
        forall|m: int| 0 <= m < a1.len() ==> #[trigger] a1[m] != stop,
        forall|m: int| 0 <= m < a2.len() ==> #[trigger] a2[m] != stop,
        t1.len() > 0,
        t2.len() > 0,
        t1[0] == stop,
        t2[0] == stop,
    ensures
        a1 == a2,
        t1 == t2,
{
    assert((a1 + t1).len() == a1.len() + t1.len());
    assert((a2 + t2).len() == a2.len() + t2.len());
    if a1.len() < a2.len() {
        assert((a1 + t1)[a1.len() as int] == t1[0]);
        assert((a2 + t2)[a1.len() as int] == a2[a1.len() as int]);
        assert(false);
    }
    if a2.len() < a1.len() {
        assert((a2 + t2)[a2.len() as int] == t2[0]);
        assert((a1 + t1)[a2.len() as int] == a1[a2.len() as int]);
        assert(false);
    }
    assert forall|m: int| 0 <= m < a1.len() implies a1[m] == a2[m] by {
        assert((a1 + t1)[m] == a1[m]);
        assert((a2 + t2)[m] == a2[m]);
    }
    assert(a1 =~= a2);
    assert forall|m: int| 0 <= m < t1.len() implies t1[m] == t2[m] by {
        assert((a1 + t1)[a1.len() + m] == t1[m]);
        assert((a2 + t2)[a2.len() + m] == t2[m]);
    }
    assert(t1.len() == t2.len());
    assert(t1 =~= t2);
}

/// A document that splits as an arbitrary head, the mark byte, and a
/// mark-free tail splits that way in only one place.
proof fn lemma_last_mark_split(
    s: Seq<u8>,
    h1: Seq<u8>,
    b1: Seq<u8>,
    h2: Seq<u8>,
    b2: Seq<u8>,
    mark: u8,
)
    requires
        s == h1 + seq![mark] + b1,
        s == h2 + seq![mark] + b2,
        forall|m: int| 0 <= m < b1.len() ==> #[trigger] b1[m] != mark,
        forall|m: int| 0 <= m < b2.len() ==> #[trigger] b2[m] != mark,
    ensures
        h1 == h2,
        b1 == b2,
{
    assert((h1 + seq![mark] + b1).len() == h1.len() + 1 + b1.len());
    assert((h2 + seq![mark] + b2).len() == h2.len() + 1 + b2.len());
    assert(h1.len() + 1 + b1.len() == h2.len() + 1 + b2.len());
    if h1.len() < h2.len() {
        let p = h2.len() as int;
        assert((h2 + seq![mark])[p] == mark);
        assert((h2 + seq![mark] + b2)[p] == (h2 + seq![mark])[p]);
        assert((h1 + seq![mark] + b1)[p] == b1[p - (h1 + seq![mark]).len()]);
        assert(b1[p - h1.len() - 1] == mark);
        assert(false);
    }
    if h2.len() < h1.len() {
        let p = h1.len() as int;
        assert((h1 + seq![mark])[p] == mark);
        assert((h1 + seq![mark] + b1)[p] == (h1 + seq![mark])[p]);
        assert((h2 + seq![mark] + b2)[p] == b2[p - (h2 + seq![mark]).len()]);
        assert(b2[p - h2.len() - 1] == mark);
        assert(false);
    }
    assert forall|m: int| 0 <= m < h1.len() implies h1[m] == h2[m] by {
        assert((h1 + seq![mark] + b1)[m] == (h1 + seq![mark])[m]);
        assert((h1 + seq![mark])[m] == h1[m]);
        assert((h2 + seq![mark] + b2)[m] == (h2 + seq![mark])[m]);
        assert((h2 + seq![mark])[m] == h2[m]);
    }
    assert(h1 =~= h2);
    assert forall|m: int| 0 <= m < b1.len() implies b1[m] == b2[m] by {
        assert((h1 + seq![mark] + b1)[(h1 + seq![mark]).len() + m] == b1[m]);
        assert((h2 + seq![mark] + b2)[(h2 + seq![mark]).len() + m] == b2[m]);
    }
    assert(b1 =~= b2);
}

/// Every byte of a rendered height is a digit, a minus sign or a dot.
proof fn lemma_num_rep_bytes(x: int)
    ensures
        forall|m: int|
            0 <= m < num_rep(x).len() ==> (48 <= #[trigger] num_rep(x)[m] <= 57 || num_rep(x)[m]
                == 45 || num_rep(x)[m] == 46),
{
    let a = if x >= 0 {
        x
    } else {
        -x
    };
    lemma_dec_rep_digits(a / (SCALE as int));
}

/// The zero-padded fractional digits determine their value.
proof fn lemma_pad6_injective(f1: int, f2: int)
    requires
        0 <= f1 < 1_000_000,
        0 <= f2 < 1_000_000,
        pad6_rep(f1) == pad6_rep(f2),
    ensures
        f1 == f2,
{
    assert(pad6_rep(f1)[0] == pad6_rep(f2)[0] && pad6_rep(f1)[1] == pad6_rep(f2)[1] && pad6_rep(
        f1,
    )[2] == pad6_rep(f2)[2] && pad6_rep(f1)[3] == pad6_rep(f2)[3] && pad6_rep(f1)[4] == pad6_rep(
        f2,
    )[4] && pad6_rep(f1)[5] == pad6_rep(f2)[5]);
    assert(f1 / 100_000 % 10 == f2 / 100_000 % 10 && f1 / 10_000 % 10 == f2 / 10_000 % 10 && f1
        / 1_000 % 10 == f2 / 1_000 % 10 && f1 / 100 % 10 == f2 / 100 % 10 && f1 / 10 % 10 == f2
        / 10 % 10 && f1 % 10 == f2 % 10);
    assert(f1 == f2) by (nonlinear_arith)
        requires
            0 <= f1 < 1_000_000,
            0 <= f2 < 1_000_000,
            f1 / 100_000 % 10 == f2 / 100_000 % 10,
            f1 / 10_000 % 10 == f2 / 10_000 % 10,
            f1 / 1_000 % 10 == f2 / 1_000 % 10,
            f1 / 100 % 10 == f2 / 100 % 10,
            f1 / 10 % 10 == f2 / 10 % 10,
            f1 % 10 == f2 % 10,
    ;
}

/// A rendered height determines its value.
proof fn lemma_num_rep_injective(x1: int, x2: int)
    requires
        -HEIGHT_LIMIT <= x1 <= HEIGHT_LIMIT,
        -HEIGHT_LIMIT <= x2 <= HEIGHT_LIMIT,
        num_rep(x1) == num_rep(x2),
    ensures
        x1 == x2,
{
    let a1 = if x1 >= 0 {
        x1
    } else {
        -x1
    };
    let a2 = if x2 >= 0 {
        x2
    } else {
        -x2
    };
    lemma_dec_rep_digits(a1 / (SCALE as int));
    lemma_dec_rep_digits(a2 / (SCALE as int));
    assert(num_rep(x1)[0] == 45 <==> x1 < 0) by {
        if x1 >= 0 {
            assert(num_rep(x1)[0] == dec_rep(a1 / (SCALE as int))[0]);
        }
    }
    assert(num_rep(x2)[0] == 45 <==> x2 < 0) by {
        if x2 >= 0 {
            assert(num_rep(x2)[0] == dec_rep(a2 / (SCALE as int))[0]);
        }
    }
    let s1 = if x1 < 0 {
        num_rep(x1).skip(1)
    } else {
        num_rep(x1)
    };
    let s2 = if x2 < 0 {
        num_rep(x2).skip(1)
    } else {
        num_rep(x2)
    };
    assert(s1 =~= dec_rep(a1 / (SCALE as int)) + (seq![46u8] + pad6_rep(a1 % (SCALE as int))));
    assert(s2 =~= dec_rep(a2 / (SCALE as int)) + (seq![46u8] + pad6_rep(a2 % (SCALE as int))));
    assert(s1 == s2);
    lemma_first_stop_split(
        s1,
        dec_rep(a1 / (SCALE as int)),
        seq![46u8] + pad6_rep(a1 % (SCALE as int)),
        dec_rep(a2 / (SCALE as int)),
        seq![46u8] + pad6_rep(a2 % (SCALE as int)),
        46,
    );
    lemma_dec_rep_injective(a1 / (SCALE as int), a2 / (SCALE as int));
    assert((seq![46u8] + pad6_rep(a1 % (SCALE as int))).skip(1) =~= pad6_rep(
        a1 % (SCALE as int),
    ));
    assert((seq![46u8] + pad6_rep(a2 % (SCALE as int))).skip(1) =~= pad6_rep(
        a2 % (SCALE as int),
    ));
    lemma_pad6_injective(a1 % (SCALE as int), a2 % (SCALE as int));
    assert(a1 == (a1 / (SCALE as int)) * (SCALE as int) + a1 % (SCALE as int));
    assert(a2 == (a2 / (SCALE as int)) * (SCALE as int) + a2 % (SCALE as int));
    assert(a1 == a2);
    if x1 < 0 && x2 < 0 {
        assert(x1 == x2);
    } else if x1 >= 0 && x2 >= 0 {
        assert(x1 == x2);
    } else {
        assert(num_rep(x1)[0] == num_rep(x2)[0]);
        assert(false);
    }
}

/// The bytes a rendered cell list may contain: digits, minus, dot, and
/// the separator's comma and space — never a bracket or newline.
spec fn is_cell_byte(b: u8) -> bool {
    (48 <= b <= 57) || b == 45 || b == 46 || b == 44 || b == 32
}

/// Every byte of a rendered cell list is a cell byte.
proof fn lemma_row_cells_bytes(hs: Seq<i64>, w: int, r: int, q: int)
    ensures
        forall|m: int|
            0 <= m < row_cells_rep(hs, w, r, q).len() ==> is_cell_byte(
                #[trigger] row_cells_rep(hs, w, r, q)[m],
            ),
    decreases q,
{
    if q == 1 {
        lemma_num_rep_bytes(hs[r * w] as int);
    } else if q > 1 {
        lemma_row_cells_bytes(hs, w, r, q - 1);
        lemma_num_rep_bytes(hs[r * w + (q - 1)] as int);
        let a = row_cells_rep(hs, w, r, q - 1);
        let b = sep_rep();
        let c = num_rep(hs[r * w + (q - 1)] as int);
        assert forall|m: int| 0 <= m < row_cells_rep(hs, w, r, q).len() implies is_cell_byte(
            row_cells_rep(hs, w, r, q)[m],
        ) by {
            assert(row_cells_rep(hs, w, r, q) == a + b + c);
            assert((a + b).len() == a.len() + b.len());
            assert((a + b + c).len() == a.len() + b.len() + c.len());
            if m < a.len() {
                assert((a + b + c)[m] == (a + b)[m]);
                assert((a + b)[m] == a[m]);
            } else if m < a.len() + b.len() {
                assert((a + b + c)[m] == (a + b)[m]);
                assert((a + b)[m] == b[m - a.len()]);
            } else {
                assert((a + b + c)[m] == c[m - a.len() - b.len()]);
            }
        }
    }
}

/// A rendered cell list determines the heights of its cells.
proof fn lemma_row_cells_injective(hs1: Seq<i64>, hs2: Seq<i64>, w: int, r: int, q: int)
    requires
        0 <= r,
        1 <= q,
        0 <= r * w,
        r * w + q <= hs1.len(),
        r * w + q <= hs2.len(),
        forall|m: int| 0 <= m < hs1.len() ==> -HEIGHT_LIMIT <= #[trigger] hs1[m] <= HEIGHT_LIMIT,
        forall|m: int| 0 <= m < hs2.len() ==> -HEIGHT_LIMIT <= #[trigger] hs2[m] <= HEIGHT_LIMIT,
        row_cells_rep(hs1, w, r, q) == row_cells_rep(hs2, w, r, q),
    ensures
        forall|m: int| 0 <= m < q ==> #[trigger] hs1[r * w + m] == hs2[r * w + m],
    decreases q,
{
    if q == 1 {
        lemma_num_rep_injective(hs1[r * w] as int, hs2[r * w] as int);
    } else {
        let a1 = row_cells_rep(hs1, w, r, q - 1);
        let a2 = row_cells_rep(hs2, w, r, q - 1);
        let c1 = num_rep(hs1[r * w + (q - 1)] as int);
        let c2 = num_rep(hs2[r * w + (q - 1)] as int);
        lemma_num_rep_bytes(hs1[r * w + (q - 1)] as int);
        lemma_num_rep_bytes(hs2[r * w + (q - 1)] as int);
        let b1 = seq![32u8] + c1;
        let b2 = seq![32u8] + c2;
        assert(row_cells_rep(hs1, w, r, q) =~= a1 + seq![44u8] + b1);
        assert(row_cells_rep(hs2, w, r, q) =~= a2 + seq![44u8] + b2);
        assert forall|m: int| 0 <= m < b1.len() implies #[trigger] b1[m] != 44 by {
            if m >= 1 {
                assert(b1[m] == c1[m - 1]);
            }
        }
        assert forall|m: int| 0 <= m < b2.len() implies #[trigger] b2[m] != 44 by {
            if m >= 1 {
                assert(b2[m] == c2[m - 1]);
            }
        }
        lemma_last_mark_split(row_cells_rep(hs1, w, r, q), a1, b1, a2, b2, 44);
        lemma_row_cells_injective(hs1, hs2, w, r, q - 1);
        assert(b1.skip(1) =~= c1);
        assert(b2.skip(1) =~= c2);
        lemma_num_rep_injective(hs1[r * w + (q - 1)] as int, hs2[r * w + (q - 1)] as int);
    }
}

/// A rendered row block determines the heights of all its rows.
#[verifier::rlimit(80)]
#[verifier::spinoff_prover]
proof fn lemma_rows_injective(hs1: Seq<i64>, hs2: Seq<i64>, w: int, r: int)
    requires
        1 <= r,
        1 <= w,
        r * w <= hs1.len(),
        r * w <= hs2.len(),
        forall|m: int| 0 <= m < hs1.len() ==> -HEIGHT_LIMIT <= #[trigger] hs1[m] <= HEIGHT_LIMIT,
        forall|m: int| 0 <= m < hs2.len() ==> -HEIGHT_LIMIT <= #[trigger] hs2[m] <= HEIGHT_LIMIT,
        rows_rep(hs1, w, r) == rows_rep(hs2, w, r),
    ensures
        forall|m: int| 0 <= m < r * w ==> #[trigger] hs1[m] == hs2[m],
    decreases r,
{
    if r == 1 {
        let c1 = row_cells_rep(hs1, w, 0, w);
        let c2 = row_cells_rep(hs2, w, 0, w);
        assert(rows_rep(hs1, w, 1) == seq![91u8] + c1 + seq![93u8]);
        assert((seq![91u8] + c1 + seq![93u8]).len() == 1 + c1.len() + 1);
        assert((seq![91u8] + c2 + seq![93u8]).len() == 1 + c2.len() + 1);
        assert(c1.len() == c2.len());
        assert forall|m: int| 0 <= m < c1.len() implies c1[m] == c2[m] by {
            assert((seq![91u8] + c1 + seq![93u8])[1 + m] == (seq![91u8] + c1)[1 + m]);
            assert((seq![91u8] + c1)[1 + m] == c1[m]);
            assert((seq![91u8] + c2 + seq![93u8])[1 + m] == (seq![91u8] + c2)[1 + m]);
            assert((seq![91u8] + c2)[1 + m] == c2[m]);
        }
        assert(c1 =~= c2);
        assert(0 * w == 0) by (nonlinear_arith);
        lemma_row_cells_injective(hs1, hs2, w, 0, w);
        assert forall|m: int| 0 <= m < r * w implies hs1[m] == hs2[m] by {
            assert(hs1[0 * w + m] == hs2[0 * w + m]);
        }
    } else {
        assert((r - 1) * w + w == r * w && 0 <= (r - 1) * w) by (nonlinear_arith)
            requires
                r >= 2,
                w >= 1,
        ;
        let p1 = rows_rep(hs1, w, r - 1);
        let p2 = rows_rep(hs2, w, r - 1);
        let c1 = row_cells_rep(hs1, w, r - 1, w);
        let c2 = row_cells_rep(hs2, w, r - 1, w);
        lemma_row_cells_bytes(hs1, w, r - 1, w);
        lemma_row_cells_bytes(hs2, w, r - 1, w);
        let h1 = p1 + sep_rep();
        let h2 = p2 + sep_rep();
        let b1 = c1 + seq![93u8];
        let b2 = c2 + seq![93u8];
        assert(rows_rep(hs1, w, r) =~= h1 + seq![91u8] + b1);
        assert(rows_rep(hs2, w, r) =~= h2 + seq![91u8] + b2);
        assert forall|m: int| 0 <= m < b1.len() implies #[trigger] b1[m] != 91 by {
            assert((c1 + seq![93u8]).len() == c1.len() + 1);
            if m < c1.len() {
                assert(b1[m] == c1[m]);
            }
        }
        assert forall|m: int| 0 <= m < b2.len() implies #[trigger] b2[m] != 91 by {
            assert((c2 + seq![93u8]).len() == c2.len() + 1);
            if m < c2.len() {
                assert(b2[m] == c2[m]);
            }
        }
        lemma_last_mark_split(rows_rep(hs1, w, r), h1, b1, h2, b2, 91);
        assert((p1 + sep_rep()).len() == p1.len() + 2);
        assert((p2 + sep_rep()).len() == p2.len() + 2);
        assert(p1.len() == p2.len());
        assert forall|m: int| 0 <= m < p1.len() implies p1[m] == p2[m] by {
            assert((p1 + sep_rep())[m] == p1[m]);
            assert((p2 + sep_rep())[m] == p2[m]);
        }
        assert(p1 =~= p2);
        lemma_rows_injective(hs1, hs2, w, r - 1);
        assert((c1 + seq![93u8]).len() == c1.len() + 1);
        assert((c2 + seq![93u8]).len() == c2.len() + 1);
        assert(c1.len() == c2.len());
        assert forall|m: int| 0 <= m < c1.len() implies c1[m] == c2[m] by {
            assert((c1 + seq![93u8])[m] == c1[m]);
            assert((c2 + seq![93u8])[m] == c2[m]);
        }
        assert(c1 =~= c2);
        lemma_row_cells_injective(hs1, hs2, w, r - 1, w);
        assert forall|m: int| 0 <= m < r * w implies hs1[m] == hs2[m] by {
            if m < (r - 1) * w {
            } else {
                let j = m - (r - 1) * w;
                assert(0 <= j < w);
                assert(hs1[(r - 1) * w + j] == hs2[(r - 1) * w + j]);
            }
        }
    }
}

/// A canonical decimal of a positive value never starts with a zero digit.
proof fn lemma_dec_rep_leading(v: int)
    requires
        v >= 1,
    ensures
        dec_rep(v)[0] != 48,
    decreases v,
{
    if v > 9 {
        if v / 10 >= 1 {
            lemma_dec_rep_leading(v / 10);
        }
        assert(dec_rep(v)[0] == dec_rep(v / 10)[0]);
    }
}

/// Digit counts of small canonical decimals.
proof fn lemma_dec_rep_len_small(v: int)
    requires
        0 <= v,
    ensures
        1 <= dec_rep(v).len(),
        v <= 9 ==> dec_rep(v).len() == 1,
        v <= 99 ==> dec_rep(v).len() <= 2,
        v <= 999 ==> dec_rep(v).len() <= 3,
        v <= 9_999 ==> dec_rep(v).len() <= 4,
    decreases v,
{
    if v > 9 {
        lemma_dec_rep_len_small(v / 10);
        assert(dec_rep(v).len() == dec_rep(v / 10).len() + 1);
    }
}

/// Two canonical decimals standing at the same position, each followed by
/// a non-digit byte or the end, are the same number.
proof fn lemma_dec_at_same_pos(s: Seq<u8>, i: int, v1: int, v2: int)
    requires
        0 <= v1,
        0 <= v2,
        0 <= i,
        i + dec_rep(v1).len() <= s.len(),
        i + dec_rep(v2).len() <= s.len(),
        s.subrange(i, i + dec_rep(v1).len()) == dec_rep(v1),
        s.subrange(i, i + dec_rep(v2).len()) == dec_rep(v2),
        i + dec_rep(v1).len() == s.len() || !(48 <= s[i + dec_rep(v1).len()] <= 57),
        i + dec_rep(v2).len() == s.len() || !(48 <= s[i + dec_rep(v2).len()] <= 57),
    ensures
        v1 == v2,
        dec_rep(v1).len() == dec_rep(v2).len(),
{
    lemma_dec_rep_digits(v1);
    lemma_dec_rep_digits(v2);
    let l1 = dec_rep(v1).len() as int;
    let l2 = dec_rep(v2).len() as int;
    if l1 < l2 {
        assert(s[i + l1] == s.subrange(i, i + l2)[l1]);
        assert(48 <= dec_rep(v2)[l1] <= 57);
        assert(false);
    }
    if l2 < l1 {
        assert(s[i + l2] == s.subrange(i, i + l1)[l2]);
        assert(48 <= dec_rep(v1)[l2] <= 57);
        assert(false);
    }
    assert(dec_rep(v1) == dec_rep(v2));
    lemma_dec_rep_injective(v1, v2);
}

/// The exact layout of a rendered height standing at position `i` of `s`:
/// where its sign, integer digits, dot and fractional digits sit, and what
/// value the fractional digits evaluate back to.
proof fn lemma_num_shape(s: Seq<u8>, i: int, x: int)
    requires
        -HEIGHT_LIMIT <= x <= HEIGHT_LIMIT,
        0 <= i,
        i + num_rep(x).len() <= s.len(),
        s.subrange(i, i + num_rep(x).len()) == num_rep(x),
    ensures
        ({
            let a = if x >= 0 { x } else { -x };
            let off: int = if x < 0 { 1int } else { 0int };
            let dl = dec_rep(a / (SCALE as int)).len() as int;
            &&& (x < 0 ==> s[i] == 45)
            &&& (x >= 0 ==> 48 <= s[i] <= 57)
            &&& num_rep(x).len() == off + dl + 7
            &&& s.subrange(i + off, i + off + dl) == dec_rep(a / (SCALE as int))
            &&& s[i + off + dl] == 46
            &&& (a / (SCALE as int) >= 1 ==> s[i + off] != 48)
            &&& 1 <= dl <= 4
            &&& 0 <= a / (SCALE as int) <= 1_000
            &&& forall|k: int|
                0 <= k < 6 ==> 48 <= #[trigger] s[i + off + dl + 1 + k] <= 57
            &&& s.subrange(i + off + dl + 1, i + off + dl + 7) == pad6_rep(a % (SCALE as int))
            &&& digits_val(s.subrange(i + off + dl + 1, i + off + dl + 7)) == a % (SCALE as int)
        }),
{
    let a = if x >= 0 { x } else { -x };
    let off: int = if x < 0 { 1int } else { 0int };
    let ip = a / (SCALE as int);
    let fr = a % (SCALE as int);
    let d = dec_rep(ip);
    let dl = d.len() as int;
    let p = pad6_rep(fr);
    lemma_dec_rep_digits(ip);
    assert(ip <= 1_000) by (nonlinear_arith)
        requires
            0 <= a <= HEIGHT_LIMIT,
            ip == a / (SCALE as int),
    ;
    lemma_dec_rep_len_small(ip);
    let sign: Seq<u8> = if x < 0 {
        seq![45u8]
    } else {
        Seq::<u8>::empty()
    };
    let sd = sign + d;
    assert(num_rep(x) =~= sd + seq![46u8] + p);
    assert((sd + seq![46u8] + p).len() == sd.len() + 1 + p.len());
    assert(sd.len() == off + dl);
    assert(num_rep(x).len() == off + dl + 7);
    assert forall|k: int| 0 <= k < num_rep(x).len() implies s[i + k] == num_rep(x)[k] by {
        assert(s.subrange(i, i + num_rep(x).len())[k] == s[i + k]);
    }
    if x < 0 {
        assert(s[i] == num_rep(x)[0]);
        assert(num_rep(x)[0] == (sd + seq![46u8])[0]);
        assert((sd + seq![46u8])[0] == sd[0]);
        assert(sd[0] == 45);
    }
    assert forall|k: int| 0 <= k < dl implies s[i + off + k] == d[k] by {
        assert(s[i + off + k] == num_rep(x)[off + k]);
        assert(num_rep(x)[off + k] == (sd + seq![46u8])[off + k]);
        assert((sd + seq![46u8])[off + k] == sd[off + k]);
        assert(sd[off + k] == d[k]);
    }
    assert(s.subrange(i + off, i + off + dl) =~= d);
    if x >= 0 {
        assert(s[i] == d[0]);
    }
    if ip >= 1 {
        lemma_dec_rep_leading(ip);
        assert(s[i + off] == d[0]);
    }
    assert(s[i + off + dl] == num_rep(x)[off + dl]);
    assert(num_rep(x)[off + dl] == (sd + seq![46u8])[off + dl]);
    assert((sd + seq![46u8])[off + dl] == 46);
    assert(0 <= fr / 100_000 % 10 <= 9 && 0 <= fr / 10_000 % 10 <= 9 && 0 <= fr / 1_000 % 10
        <= 9 && 0 <= fr / 100 % 10 <= 9 && 0 <= fr / 10 % 10 <= 9 && 0 <= fr % 10 <= 9);
    assert forall|k: int| 0 <= k < 6 implies s[i + off + dl + 1 + k] == p[k] by {
        assert(s[i + off + dl + 1 + k] == num_rep(x)[off + dl + 1 + k]);
        assert(num_rep(x)[off + dl + 1 + k] == p[off + dl + 1 + k - (sd.len() + 1)]);
    }
    assert forall|k: int| 0 <= k < 6 implies 48 <= #[trigger] s[i + off + dl + 1 + k] <= 57 by {
        assert(s[i + off + dl + 1 + k] == p[k]);
    }
    assert(s.subrange(i + off + dl + 1, i + off + dl + 7) =~= p);
    lemma_pad6_of_digits(p);
    lemma_pad6_injective(digits_val(p), fr);
}

/// Two rendered heights standing at the same position are the same value.
proof fn lemma_num_at_same_pos(s: Seq<u8>, i: int, x1: int, x2: int)
    requires
        -HEIGHT_LIMIT <= x1 <= HEIGHT_LIMIT,
        -HEIGHT_LIMIT <= x2 <= HEIGHT_LIMIT,
        0 <= i,
        i + num_rep(x1).len() <= s.len(),
        i + num_rep(x2).len() <= s.len(),
        s.subrange(i, i + num_rep(x1).len()) == num_rep(x1),
        s.subrange(i, i + num_rep(x2).len()) == num_rep(x2),
    ensures
        x1 == x2,
        num_rep(x1).len() == num_rep(x2).len(),
{
    lemma_num_shape(s, i, x1);
    lemma_num_shape(s, i, x2);
    let a1 = if x1 >= 0 { x1 } else { -x1 };
    let a2 = if x2 >= 0 { x2 } else { -x2 };
    if (x1 < 0) != (x2 < 0) {
        assert(false);
    }
    let off: int = if x1 < 0 { 1int } else { 0int };
    let d1 = dec_rep(a1 / (SCALE as int));
    let d2 = dec_rep(a2 / (SCALE as int));
    lemma_dec_rep_digits(a1 / (SCALE as int));
    lemma_dec_rep_digits(a2 / (SCALE as int));
    lemma_dec_at_same_pos(s, i + off, a1 / (SCALE as int), a2 / (SCALE as int));
    let dl = d1.len() as int;
    assert(pad6_rep(a1 % (SCALE as int)) == pad6_rep(a2 % (SCALE as int)));
    lemma_pad6_injective(a1 % (SCALE as int), a2 % (SCALE as int));
    assert(a1 == (a1 / (SCALE as int)) * (SCALE as int) + a1 % (SCALE as int));
    assert(a2 == (a2 / (SCALE as int)) * (SCALE as int) + a2 % (SCALE as int));
}

/// The cells of row `r` from cell `q` on, rendered with their leading
/// separators.
pub open spec fn cells_tail(hs: Seq<i64>, w: int, r: int, q: int) -> Seq<u8>
    decreases w - q,
{
    if q >= w {
        Seq::<u8>::empty()
    } else {
        (if q > 0 {
            sep_rep()
        } else {
            Seq::<u8>::empty()
        }) + num_rep(hs[r * w + q] as int) + cells_tail(hs, w, r, q + 1)
    }
}

/// A whole row is any cell prefix followed by the matching cell tail.
proof fn lemma_cells_decomp(hs: Seq<i64>, w: int, r: int, q: int)
    requires
        0 <= q <= w,
    ensures
        row_cells_rep(hs, w, r, w) == row_cells_rep(hs, w, r, q) + cells_tail(hs, w, r, q),
    decreases w - q,
{
    if q == w {
        assert(row_cells_rep(hs, w, r, w) =~= row_cells_rep(hs, w, r, q) + cells_tail(
            hs,
            w,
            r,
            q,
        ));
    } else {
        lemma_cells_decomp(hs, w, r, q + 1);
        if q == 0 {
            assert(row_cells_rep(hs, w, r, 1) =~= row_cells_rep(hs, w, r, 0) + (Seq::<
                u8,
            >::empty() + num_rep(hs[r * w] as int)));
        }
        assert(row_cells_rep(hs, w, r, w) =~= row_cells_rep(hs, w, r, q) + cells_tail(
            hs,
            w,
            r,
            q,
        ));
    }
}

/// The rows from `r` on, rendered with their leading separators.
pub open spec fn rows_tail(hs: Seq<i64>, w: int, r: int, h: int) -> Seq<u8>
    decreases h - r,
{
    if r >= h {
        Seq::<u8>::empty()
    } else {
        (if r > 0 {
            sep_rep()
        } else {
            Seq::<u8>::empty()
        }) + row_rep(hs, w, r) + rows_tail(hs, w, r + 1, h)
    }
}

/// The whole row block is any row prefix followed by the matching row
/// tail.
proof fn lemma_rows_decomp(hs: Seq<i64>, w: int, r: int, h: int)
    requires
        0 <= r <= h,
    ensures
        rows_rep(hs, w, h) == rows_rep(hs, w, r) + rows_tail(hs, w, r, h),
    decreases h - r,
{
    if r == h {
        assert(rows_rep(hs, w, h) =~= rows_rep(hs, w, r) + rows_tail(hs, w, r, h));
    } else {
        lemma_rows_decomp(hs, w, r + 1, h);
        if r == 0 {
            assert(rows_rep(hs, w, 1) =~= rows_rep(hs, w, 0) + (Seq::<u8>::empty() + row_rep(
                hs,
                w,
                0,
            )));
        }
        assert(rows_rep(hs, w, h) =~= rows_rep(hs, w, r) + rows_tail(hs, w, r, h));
    }
}

/// Law: a level saved and then reloaded is the level itself. Rendering a
/// storable level and parsing the document straight back always succeeds
/// — the parser's completeness clause — and returns a level with the same
/// name, dimensions and heights — the canonicity clause together with
/// [`lemma_persisted_form_determines_level`].
pub fn reload_level(l: &Level) -> (r: Level)
    requires
        l.wf(),
        name_bytes_ok(vstd::utf8::encode_utf8(l.name@)),
    ensures
        r.name@ == l.name@,
        r.width == l.width,
        r.height == l.height,
        r.heights@ == l.heights@,
        r.wf(),
{
    let doc = render_level(l);
    proof {
        assert(canonical_doc(doc@));
    }
    match parse_level(&doc) {
        Some(reloaded) => {
            proof {
                lemma_persisted_form_determines_level(l, &reloaded);
            }
            reloaded
        },
        None => {
            proof {
                assert(false);
            }
            l.clone()
        },
    }
}

/// Law: the persisted document determines the level. Two storable levels
/// with the same canonical rendering agree on name, dimensions and every
/// stored height — so whatever a saved document is parsed back into, only
/// one level content can stand behind it, and a level saved and then
/// reloaded is numerically identical to the original.
#[verifier::rlimit(80)]
#[verifier::spinoff_prover]
pub proof fn lemma_persisted_form_determines_level(l1: &Level, l2: &Level)
    requires
        l1.wf(),
        l2.wf(),
        name_bytes_ok(vstd::utf8::encode_utf8(l1.name@)),
        name_bytes_ok(vstd::utf8::encode_utf8(l2.name@)),
        render_level_spec(l1) == render_level_spec(l2),
    ensures
        l1.name@ == l2.name@,
        l1.width == l2.width,
        l1.height == l2.height,
        l1.heights@ == l2.heights@,
{
    let n1 = vstd::utf8::encode_utf8(l1.name@);
    let n2 = vstd::utf8::encode_utf8(l2.name@);
    let rows1 = rows_rep(l1.heights@, l1.width as int, l1.height as int);
    let rows2 = rows_rep(l2.heights@, l2.width as int, l2.height as int);
    let tail1w = lit_height_open() + dec_rep(l1.height as int) + lit_heights_open() + rows1
        + lit_close();
    let tail2w = lit_height_open() + dec_rep(l2.height as int) + lit_heights_open() + rows2
        + lit_close();
    let rest1 = lit_width_open() + dec_rep(l1.width as int) + tail1w;
    let rest2 = lit_width_open() + dec_rep(l2.width as int) + tail2w;
    let s0 = render_level_spec(l1).skip(8);
    assert(s0 =~= n1 + rest1);
    assert(render_level_spec(l2).skip(8) =~= n2 + rest2);
    assert((lit_width_open() + dec_rep(l1.width as int) + tail1w)[0] == 34) by {
        assert(rest1[0] == (lit_width_open() + dec_rep(l1.width as int))[0]);
        assert((lit_width_open() + dec_rep(l1.width as int))[0] == lit_width_open()[0]);
    }
    assert((lit_width_open() + dec_rep(l2.width as int) + tail2w)[0] == 34) by {
        assert(rest2[0] == (lit_width_open() + dec_rep(l2.width as int))[0]);
        assert((lit_width_open() + dec_rep(l2.width as int))[0] == lit_width_open()[0]);
    }
    assert(rest1.len() > 0 && rest2.len() > 0);
    lemma_first_stop_split(s0, n1, rest1, n2, rest2, 34);
    vstd::utf8::encode_utf8_decode_utf8(l1.name@);
    vstd::utf8::encode_utf8_decode_utf8(l2.name@);
    assert(l1.name@ == l2.name@);

    lemma_dec_rep_digits(l1.width as int);
    lemma_dec_rep_digits(l2.width as int);
    lemma_dec_rep_digits(l1.height as int);
    lemma_dec_rep_digits(l2.height as int);
    let s1 = rest1.skip(10);
    assert(s1 =~= dec_rep(l1.width as int) + tail1w);
    assert(rest2.skip(10) =~= dec_rep(l2.width as int) + tail2w);
    assert(tail1w[0] == 10) by {
        assert(tail1w[0] == (lit_height_open() + dec_rep(l1.height as int) + lit_heights_open()
            + rows1)[0]);
        assert((lit_height_open() + dec_rep(l1.height as int) + lit_heights_open() + rows1)[0]
            == (lit_height_open() + dec_rep(l1.height as int) + lit_heights_open())[0]);
        assert((lit_height_open() + dec_rep(l1.height as int) + lit_heights_open())[0] == (
        lit_height_open() + dec_rep(l1.height as int))[0]);
        assert((lit_height_open() + dec_rep(l1.height as int))[0] == lit_height_open()[0]);
    }
    assert(tail2w[0] == 10) by {
        assert(tail2w[0] == (lit_height_open() + dec_rep(l2.height as int) + lit_heights_open()
            + rows2)[0]);
        assert((lit_height_open() + dec_rep(l2.height as int) + lit_heights_open() + rows2)[0]
            == (lit_height_open() + dec_rep(l2.height as int) + lit_heights_open())[0]);
        assert((lit_height_open() + dec_rep(l2.height as int) + lit_heights_open())[0] == (
        lit_height_open() + dec_rep(l2.height as int))[0]);
        assert((lit_height_open() + dec_rep(l2.height as int))[0] == lit_height_open()[0]);
    }
    assert(tail1w.len() > 0 && tail2w.len() > 0);
    lemma_first_stop_split(
        s1,
        dec_rep(l1.width as int),
        tail1w,
        dec_rep(l2.width as int),
        tail2w,
        10,
    );
    lemma_dec_rep_injective(l1.width as int, l2.width as int);

    let tail1h = lit_heights_open() + rows1 + lit_close();
    let tail2h = lit_heights_open() + rows2 + lit_close();
    let s2 = tail1w.skip(10);
    assert(s2 =~= dec_rep(l1.height as int) + tail1h);
    assert(tail2w.skip(10) =~= dec_rep(l2.height as int) + tail2h);
    assert(tail1h[0] == 10) by {
        assert(tail1h[0] == (lit_heights_open() + rows1)[0]);
        assert((lit_heights_open() + rows1)[0] == lit_heights_open()[0]);
    }
    assert(tail2h[0] == 10) by {
        assert(tail2h[0] == (lit_heights_open() + rows2)[0]);
        assert((lit_heights_open() + rows2)[0] == lit_heights_open()[0]);
    }
    assert(tail1h.len() > 0 && tail2h.len() > 0);
    lemma_first_stop_split(
        s2,
        dec_rep(l1.height as int),
        tail1h,
        dec_rep(l2.height as int),
        tail2h,
        10,
    );
    lemma_dec_rep_injective(l1.height as int, l2.height as int);

    let s3 = tail1h.skip(12);
    assert(s3 =~= rows1 + lit_close());
    assert(tail2h.skip(12) =~= rows2 + lit_close());
    assert((rows1 + lit_close()).len() == rows1.len() + 2);
    assert((rows2 + lit_close()).len() == rows2.len() + 2);
    assert(rows1.len() == rows2.len());
    assert forall|m: int| 0 <= m < rows1.len() implies rows1[m] == rows2[m] by {
        assert((rows1 + lit_close())[m] == rows1[m]);
        assert((rows2 + lit_close())[m] == rows2[m]);
    }
    assert(rows1 =~= rows2);
    lemma_rows_injective(
        l1.heights@,
        l2.heights@,
        l1.width as int,
        l1.height as int,
    );
    assert((l1.height as int) * (l1.width as int) == (l1.width as int) * (l1.height as int))
        by (nonlinear_arith);
    assert(l1.heights@ =~= l2.heights@);
}

} // verus!
