//! The map text format: entities holding key/value properties and
//! brushes, each brush a block of plane lines.
//!
//! The grammar, over ASCII text: `//` line comments count as whitespace;
//! an entity is `{` followed by quoted key/value pairs and brush blocks,
//! closed by `}`; a brush is `{` followed by plane lines, closed by `}`;
//! a plane line is three parenthesised integer coordinate triples, a
//! texture token, and five decimal numbers (x-offset, y-offset, rotation,
//! x-scale, y-scale). The whole input must be consumed; a failure
//! reports the offset it was detected at and the rule that failed.
//!
//! Numbers are written as an optional sign, digits, and an optional
//! fraction; exponent forms are not part of this grammar. Point
//! coordinates must be integer-valued (a fraction of zeros is fine) and
//! within the brush coordinate bound, so that all later geometry is
//! exact.
//!
//! The parser is specified exactly: the `spec_*` functions below form a
//! reference interpreter for the grammar over the byte sequence of the
//! input, and the executable parser returns precisely what they describe.

use vstd::prelude::*;
use vstd::string::StrSliceExecFns;

use crate::brush::Brush;
use crate::error::ParseError;
use crate::geom::{v3_in_bounds, Vec3, COORD_BOUND, V3};
use crate::plane::{plane_in_bounds, Decimal, Plane};

verus! {

/// The byte values of an ASCII character sequence.
pub open spec fn bytes_of(cs: Seq<char>) -> Seq<u8> {
    Seq::new(cs.len(), |i: int| cs[i] as u8)
}

/// Whitespace accepted between tokens.
pub open spec fn is_ws_byte(b: u8) -> bool {
    b == 32 || b == 9 || b == 13 || b == 10
}

pub open spec fn is_digit_byte(b: u8) -> bool {
    48 <= b <= 57
}

/// Characters a texture token is made of: letters and underscores.
pub open spec fn is_tex_byte(b: u8) -> bool {
    (65 <= b <= 90) || (97 <= b <= 122) || b == 95
}

/// Position after skipping whitespace and `//` comments from `i`.
pub open spec fn spec_ws(s: Seq<u8>, i: int) -> int
    decreases s.len() - i, 0int,
{
    if i < 0 || i >= s.len() {
        i
    } else if is_ws_byte(s[i]) {
        spec_ws(s, i + 1)
    } else if s[i] == 47 && i + 1 < s.len() && s[i + 1] == 47 {
        spec_skip_line(s, i + 2)
    } else {
        i
    }
}

/// Position after skipping the rest of a comment line from `i`.
pub open spec fn spec_skip_line(s: Seq<u8>, i: int) -> int
    decreases s.len() - i, 1int,
{
    if i < 0 || i >= s.len() {
        i
    } else if s[i] == 13 || s[i] == 10 {
        spec_ws(s, i)
    } else {
        spec_skip_line(s, i + 1)
    }
}

/// The first position at or after `i` holding byte `c`, if any.
pub open spec fn spec_find(s: Seq<u8>, i: int, c: u8) -> Option<int>
    decreases s.len() - i,
{
    if i < 0 || i >= s.len() {
        None
    } else if s[i] == c {
        Some(i)
    } else {
        spec_find(s, i + 1, c)
    }
}

/// The end of the digit run starting at `i`.
pub open spec fn digits_end(s: Seq<u8>, i: int) -> int
    decreases s.len() - i,
{
    if 0 <= i < s.len() && is_digit_byte(s[i]) {
        digits_end(s, i + 1)
    } else {
        i
    }
}

/// The end of the texture-token run starting at `i`.
pub open spec fn tex_end(s: Seq<u8>, i: int) -> int
    decreases s.len() - i,
{
    if 0 <= i < s.len() && is_tex_byte(s[i]) {
        tex_end(s, i + 1)
    } else {
        i
    }
}

/// The value of the digit run `s[i..j]`, most significant digit first.
pub open spec fn digits_val(s: Seq<u8>, i: int, j: int) -> int
    decreases j - i,
{
    if j <= i {
        0
    } else {
        digits_val(s, i, j - 1) * 10 + (s[j - 1] - 48)
    }
}

pub open spec fn pow10(e: int) -> int
    decreases e,
{
    if e <= 0 {
        1
    } else {
        10 * pow10(e - 1)
    }
}

/// A parsed quoted string: its bytes and the position after the closing
/// quote.
pub open spec fn spec_string(s: Seq<u8>, i: int) -> Option<(Seq<u8>, int)> {
    if 0 <= i < s.len() && s[i] == 34 {
        match spec_find(s, i + 1, 34) {
            Some(j) => Some((s.subrange(i + 1, j), j + 1)),
            None => None,
        }
    } else {
        None
    }
}

/// A parsed texture token: at least one letter or underscore.
pub open spec fn spec_texture(s: Seq<u8>, i: int) -> Option<(Seq<u8>, int)> {
    let e = tex_end(s, i);
    if 0 <= i && e > i {
        Some((s.subrange(i, e), e))
    } else {
        None
    }
}

/// A parsed decimal number: signed mantissa, count of fraction digits,
/// and end position.
pub ghost struct NumV {
    pub man: int,
    pub fd: int,
    pub end: int,
}

/// Shape of a decimal number at `i`: optional sign, digit run, optional
/// `.` and fraction run. At least one digit must be present; the
/// mantissa must fit a signed 64-bit integer and the fraction may hold at
/// most 18 digits.
pub open spec fn spec_number(s: Seq<u8>, i: int) -> Option<NumV> {
    if i < 0 || i >= s.len() {
        None
    } else {
        let neg = s[i] == 45;
        let i1 = if s[i] == 45 || s[i] == 43 {
            i + 1
        } else {
            i
        };
        let e1 = digits_end(s, i1);
        let has_dot = e1 < s.len() && s[e1] == 46;
        let e2 = if has_dot {
            digits_end(s, e1 + 1)
        } else {
            e1
        };
        let fd = if has_dot {
            e2 - (e1 + 1)
        } else {
            0
        };
        let mag = digits_val(s, i1, e1) * pow10(fd) + if has_dot {
            digits_val(s, e1 + 1, e2)
        } else {
            0
        };
        if (e1 > i1 || (has_dot && e2 > e1 + 1)) && fd <= 18 && mag <= 9_223_372_036_854_775_807 {
            Some(NumV { man: if neg {
                -mag
            } else {
                mag
            }, fd, end: if has_dot {
                e2
            } else {
                e1
            } })
        } else {
            None
        }
    }
}

/// Shape of an integer coordinate at `i`: a decimal number whose fraction
/// digits are all zero and whose integer part is within the coordinate
/// bound. Yields the signed value and the end position.
pub open spec fn spec_coord(s: Seq<u8>, i: int) -> Option<(int, int)> {
    if i < 0 || i >= s.len() {
        None
    } else {
        let neg = s[i] == 45;
        let i1 = if s[i] == 45 || s[i] == 43 {
            i + 1
        } else {
            i
        };
        let e1 = digits_end(s, i1);
        let has_dot = e1 < s.len() && s[e1] == 46;
        let e2 = if has_dot {
            digits_end(s, e1 + 1)
        } else {
            e1
        };
        let v = digits_val(s, i1, e1);
        let frac_zero = forall|j: int| e1 + 1 <= j < e2 ==> s[j] == 48;
        if (e1 > i1 || (has_dot && e2 > e1 + 1)) && v <= COORD_BOUND as int && frac_zero {
            Some(((if neg {
                -v
            } else {
                v
            }), if has_dot {
                e2
            } else {
                e1
            }))
        } else {
            None
        }
    }
}

/// A parsed point: `(` ws coord ws coord ws coord ws `)`.
pub open spec fn spec_point(s: Seq<u8>, i: int) -> Option<(V3, int)> {
    if 0 <= i < s.len() && s[i] == 40 {
        let ix = spec_ws(s, i + 1);
        match spec_coord(s, ix) {
            Some((x, jx)) => {
                let iy = spec_ws(s, jx);
                match spec_coord(s, iy) {
                    Some((y, jy)) => {
                        let iz = spec_ws(s, jy);
                        match spec_coord(s, iz) {
                            Some((z, jz)) => {
                                let ic = spec_ws(s, jz);
                                if ic < s.len() && s[ic] == 41 {
                                    Some((V3 { x, y, z }, ic + 1))
                                } else {
                                    None
                                }
                            },
                            None => None,
                        }
                    },
                    None => None,
                }
            },
            None => None,
        }
    } else {
        None
    }
}

/// A parsed plane line.
pub ghost struct PlaneV {
    pub p0: V3,
    pub p1: V3,
    pub p2: V3,
    pub tex: Seq<u8>,
    pub xo: NumV,
    pub yo: NumV,
    pub rot: NumV,
    pub xs: NumV,
    pub ys: NumV,
}

/// A parsed plane: three points, a texture token, five numbers, all
/// separated by whitespace.
pub open spec fn spec_plane(s: Seq<u8>, i: int) -> Option<(PlaneV, int)> {
    match spec_point(s, i) {
        Some((p0, j0)) => match spec_point(s, spec_ws(s, j0)) {
            Some((p1, j1)) => match spec_point(s, spec_ws(s, j1)) {
                Some((p2, j2)) => match spec_texture(s, spec_ws(s, j2)) {
                    Some((tex, jt)) => match spec_number(s, spec_ws(s, jt)) {
                        Some(xo) => match spec_number(s, spec_ws(s, xo.end)) {
                            Some(yo) => match spec_number(s, spec_ws(s, yo.end)) {
                                Some(rot) => match spec_number(s, spec_ws(s, rot.end)) {
                                    Some(xs) => match spec_number(s, spec_ws(s, xs.end)) {
                                        Some(ys) => Some(
                                            (
                                                PlaneV { p0, p1, p2, tex, xo, yo, rot, xs, ys },
                                                ys.end,
                                            ),
                                        ),
                                        None => None,
                                    },
                                    None => None,
                                },
                                None => None,
                            },
                            None => None,
                        },
                        None => None,
                    },
                    None => None,
                },
                None => None,
            },
            None => None,
        },
        None => None,
    }
}

/// The plane lines of a brush body, then the closing `}`.
pub open spec fn spec_brush_items(s: Seq<u8>, i: int, acc: Seq<PlaneV>) -> Option<
    (Seq<PlaneV>, int),
>
    decreases s.len() - i,
{
    if i < 0 || i >= s.len() {
        None
    } else if s[i] == 125 {
        Some((acc, i + 1))
    } else {
        match spec_plane(s, i) {
            Some((pl, j)) => {
                let j2 = spec_ws(s, j);
                if i < j2 <= s.len() {
                    spec_brush_items(s, j2, acc.push(pl))
                } else {
                    None
                }
            },
            None => None,
        }
    }
}

/// A brush block: `{` ws plane lines `}`.
pub open spec fn spec_brush(s: Seq<u8>, i: int) -> Option<(Seq<PlaneV>, int)> {
    if 0 <= i < s.len() && s[i] == 123 {
        spec_brush_items(s, spec_ws(s, i + 1), Seq::empty())
    } else {
        None
    }
}

/// A parsed entity: properties in order of appearance, and brushes.
pub ghost struct EntityV {
    pub props: Seq<(Seq<u8>, Seq<u8>)>,
    pub brushes: Seq<Seq<PlaneV>>,
}

/// A property: quoted key, whitespace, quoted value.
pub open spec fn spec_property(s: Seq<u8>, i: int) -> Option<((Seq<u8>, Seq<u8>), int)> {
    match spec_string(s, i) {
        Some((k, j)) => match spec_string(s, spec_ws(s, j)) {
            Some((v, j2)) => Some(((k, v), j2)),
            None => None,
        },
        None => None,
    }
}

/// The items of an entity body, then the closing `}`.
pub open spec fn spec_entity_items(
    s: Seq<u8>,
    i: int,
    props: Seq<(Seq<u8>, Seq<u8>)>,
    brushes: Seq<Seq<PlaneV>>,
) -> Option<(EntityV, int)>
    decreases s.len() - i,
{
    if i < 0 || i >= s.len() {
        None
    } else if s[i] == 125 {
        Some((EntityV { props, brushes }, i + 1))
    } else if s[i] == 34 {
        match spec_property(s, i) {
            Some((kv, j)) => {
                let j2 = spec_ws(s, j);
                if i < j2 <= s.len() {
                    spec_entity_items(s, j2, props.push(kv), brushes)
                } else {
                    None
                }
            },
            None => None,
        }
    } else if s[i] == 123 {
        match spec_brush(s, i) {
            Some((b, j)) => {
                let j2 = spec_ws(s, j);
                if i < j2 <= s.len() {
                    spec_entity_items(s, j2, props, brushes.push(b))
                } else {
                    None
                }
            },
            None => None,
        }
    } else {
        None
    }
}

/// An entity block: `{` ws items `}`.
pub open spec fn spec_entity(s: Seq<u8>, i: int) -> Option<(EntityV, int)> {
    if 0 <= i < s.len() && s[i] == 123 {
        spec_entity_items(s, spec_ws(s, i + 1), Seq::empty(), Seq::empty())
    } else {
        None
    }
}

/// A parsed map: its entities.
pub ghost struct LevelV {
    pub ents: Seq<EntityV>,
}

/// The entities of the input, which must be consumed to its end.
pub open spec fn spec_level_items(s: Seq<u8>, i: int, acc: Seq<EntityV>) -> Option<LevelV>
    decreases s.len() - i,
{
    if i < 0 || i > s.len() {
        None
    } else if i == s.len() {
        Some(LevelV { ents: acc })
    } else if s[i] == 123 {
        match spec_entity(s, i) {
            Some((e, j)) => {
                let j2 = spec_ws(s, j);
                if i < j2 <= s.len() {
                    spec_level_items(s, j2, acc.push(e))
                } else {
                    None
                }
            },
            None => None,
        }
    } else {
        None
    }
}

/// The whole-input grammar: leading whitespace, entities, end of input.
pub open spec fn spec_level(s: Seq<u8>) -> Option<LevelV> {
    spec_level_items(s, spec_ws(s, 0), Seq::empty())
}


/// An ASCII character sequence spells out exactly these bytes: every
/// character is ASCII, so the byte equation pins each character uniquely.
pub open spec fn ascii_matches(cs: Seq<char>, b: Seq<u8>) -> bool {
    cs.len() == b.len() && forall|i: int|
        0 <= i < cs.len() ==> (#[trigger] cs[i]) as u8 == b[i] && cs[i] <= '\u{7f}'
}

/// The stored decimal is the parsed number.
pub open spec fn num_matches(d: Decimal, n: NumV) -> bool {
    d.mantissa as int == n.man && d.frac_digits as int == n.fd
}

/// The stored plane is the parsed plane line.
pub open spec fn plane_matches(p: Plane, pv: PlaneV) -> bool {
    p.points[0]@ == pv.p0 && p.points[1]@ == pv.p1 && p.points[2]@ == pv.p2 && ascii_matches(
        p.texture@,
        pv.tex,
    ) && num_matches(p.x_offset, pv.xo) && num_matches(p.y_offset, pv.yo) && num_matches(
        p.rotation,
        pv.rot,
    ) && num_matches(p.x_scale, pv.xs) && num_matches(p.y_scale, pv.ys)
}

/// The stored brush holds the parsed plane lines, in order.
pub open spec fn brush_matches(b: Brush, bv: Seq<PlaneV>) -> bool {
    b.planes@.len() == bv.len() && forall|i: int|
        0 <= i < bv.len() ==> plane_matches(#[trigger] b.planes@[i], bv[i])
}

/// Every plane of the brush is within the coordinate bound.
pub open spec fn brush_in_bounds(b: Brush) -> bool {
    forall|i: int| 0 <= i < b.planes@.len() ==> plane_in_bounds(#[trigger] b.planes@[i])
}

/// Skip whitespace and comments, exactly as `spec_ws` does.
fn skip_ws(s: &str, pos: usize) -> (r: usize)
    requires
        s.is_ascii(),
        pos <= s@.len(),
    ensures
        r as int == spec_ws(bytes_of(s@), pos as int),
        pos <= r <= s@.len(),
{
    let ghost bs = bytes_of(s@);
    let n: usize = s.unicode_len();
    let mut i: usize = pos;
    let mut in_comment: bool = false;
    loop
        invariant
            s.is_ascii(),
            pos <= i <= n,
            n == s@.len(),
            bs == bytes_of(s@),
            if in_comment {
                spec_ws(bs, pos as int) == spec_skip_line(bs, i as int)
            } else {
                spec_ws(bs, pos as int) == spec_ws(bs, i as int)
            },
        decreases
                n - i,
                (if in_comment {
                    1int
                } else {
                    0int
                }),
    {
        if i >= n {
            return i;
        }
        let b = s.get_ascii(i);
        if in_comment {
            if b == 13 || b == 10 {
                in_comment = false;
            } else {
                i = i + 1;
            }
        } else {
            if b == 32 || b == 9 || b == 13 || b == 10 {
                i = i + 1;
            } else if b == 47 && i + 1 < n && s.get_ascii(i + 1) == 47 {
                i = i + 2;
                in_comment = true;
            } else {
                return i;
            }
        }
    }
}

/// Parse a quoted string into its text.
fn parse_string(s: &str, pos: usize) -> (r: Result<(String, usize), ParseError>)
    requires
        s.is_ascii(),
        pos <= s@.len(),
    ensures
        match r {
            Ok((v, np)) => {
                let sp = spec_string(bytes_of(s@), pos as int);
                sp is Some && (sp->0).1 == np as int && ascii_matches(v@, (sp->0).0) && pos < np
                    <= s@.len()
            },
            Err(e) => spec_string(bytes_of(s@), pos as int) is None && e.offset <= s@.len(),
        },
{
    let ghost bs = bytes_of(s@);
    let n: usize = s.unicode_len();
    if pos >= n || s.get_ascii(pos) != 34 {
        return Err(ParseError::new(pos, "string"));
    }
    let mut j: usize = pos + 1;
    loop
        invariant
            s.is_ascii(),
            pos + 1 <= j <= n,
            n == s@.len(),
            bs == bytes_of(s@),
            bs[pos as int] == 34,
            spec_find(bs, pos as int + 1, 34) == spec_find(bs, j as int, 34),
        decreases n - j,
    {
        if j >= n {
            return Err(ParseError::new(pos, "string"));
        }
        if s.get_ascii(j) == 34 {
            let v = s.substring_ascii(pos + 1, j).to_owned();
            proof {
                assert(spec_find(bs, j as int, 34) == Some(j as int));
                assert forall|i: int| 0 <= i < v@.len() implies (#[trigger] v@[i]) as u8
                    == bs.subrange(pos as int + 1, j as int)[i] by {
                    assert(v@[i] == s@[pos as int + 1 + i]);
                }
            }
            return Ok((v, j + 1));
        }
        j = j + 1;
    }
}

/// Parse a texture token.
fn parse_texture(s: &str, pos: usize) -> (r: Result<(String, usize), ParseError>)
    requires
        s.is_ascii(),
        pos <= s@.len(),
    ensures
        match r {
            Ok((v, np)) => {
                let sp = spec_texture(bytes_of(s@), pos as int);
                sp is Some && (sp->0).1 == np as int && ascii_matches(v@, (sp->0).0) && pos < np
                    <= s@.len()
            },
            Err(e) => spec_texture(bytes_of(s@), pos as int) is None && e.offset <= s@.len(),
        },
{
    let ghost bs = bytes_of(s@);
    let n: usize = s.unicode_len();
    let mut j: usize = pos;
    loop
        invariant
            s.is_ascii(),
            pos <= j <= n,
            n == s@.len(),
            bs == bytes_of(s@),
            tex_end(bs, pos as int) == tex_end(bs, j as int),
        decreases n - j,
    {
        let mut run_over: bool = j >= n;
        if !run_over {
            let b = s.get_ascii(j);
            if (65 <= b && b <= 90) || (97 <= b && b <= 122) || b == 95 {
                j = j + 1;
            } else {
                run_over = true;
            }
        }
        if run_over {
            proof {
                assert(tex_end(bs, j as int) == j as int);
            }
            if j == pos {
                return Err(ParseError::new(pos, "texture"));
            }
            let v = s.substring_ascii(pos, j).to_owned();
            proof {
                assert forall|i: int| 0 <= i < v@.len() implies (#[trigger] v@[i]) as u8
                    == bs.subrange(pos as int, j as int)[i] by {
                    assert(v@[i] == s@[pos as int + i]);
                }
            }
            return Ok((v, j));
        }
    }
}

/// Digit runs are made of digits and end where the run says.
proof fn lemma_digits_run(s: Seq<u8>, i: int)
    requires
        0 <= i <= s.len(),
    ensures
        i <= digits_end(s, i) <= s.len(),
        forall|k: int| i <= k < digits_end(s, i) ==> is_digit_byte(#[trigger] s[k]),
    decreases s.len() - i,
{
    if 0 <= i < s.len() && is_digit_byte(s[i]) {
        lemma_digits_run(s, i + 1);
    }
}

/// The value of a digit run is non-negative.
proof fn lemma_digits_val_nonneg(s: Seq<u8>, i: int, j: int)
    requires
        forall|k: int| i <= k < j ==> is_digit_byte(#[trigger] s[k]),
    ensures
        digits_val(s, i, j) >= 0,
    decreases j - i,
{
    if j > i {
        lemma_digits_val_nonneg(s, i, j - 1);
        let prev = digits_val(s, i, j - 1);
        assert(prev * 10 >= 0) by (nonlinear_arith)
            requires
                prev >= 0,
        ;
    }
}

/// A digit run of `k` digits has a value below `10^k`.
proof fn lemma_digits_val_lt_pow(s: Seq<u8>, i: int, j: int)
    requires
        forall|k: int| i <= k < j ==> is_digit_byte(#[trigger] s[k]),
        i <= j,
    ensures
        digits_val(s, i, j) < pow10(j - i),
    decreases j - i,
{
    if j > i {
        lemma_digits_val_lt_pow(s, i, j - 1);
        let prev = digits_val(s, i, j - 1);
        let p = pow10(j - 1 - i);
        assert(prev * 10 + 9 < p * 10) by (nonlinear_arith)
            requires
                prev < p,
        ;
    }
}

/// The powers of ten up to the largest fraction length, unfolded.
proof fn lemma_pow10_vals()
    ensures
        pow10(0) == 1,
        pow10(18) == 1_000_000_000_000_000_000,
        forall|e: int| 0 <= e <= 18 ==> #[trigger] pow10(e) <= 1_000_000_000_000_000_000,
        forall|e: int| #[trigger] pow10(e) >= 1,
{
    assert forall|e: int| #[trigger] pow10(e) >= 1 by {
        lemma_pow10_ge_one(e);
    }
    assert(pow10(0) == 1);
    assert(pow10(1) == 10);
    assert(pow10(2) == 100);
    assert(pow10(3) == 1000);
    assert(pow10(4) == 10000);
    assert(pow10(5) == 100000);
    assert(pow10(6) == 1000000);
    assert(pow10(7) == 10000000);
    assert(pow10(8) == 100000000);
    assert(pow10(9) == 1000000000);
    assert(pow10(10) == 10000000000);
    assert(pow10(11) == 100000000000);
    assert(pow10(12) == 1000000000000);
    assert(pow10(13) == 10000000000000);
    assert(pow10(14) == 100000000000000);
    assert(pow10(15) == 1000000000000000);
    assert(pow10(16) == 10000000000000000);
    assert(pow10(17) == 100000000000000000);
    assert(pow10(18) == 1000000000000000000);
    assert forall|e: int| 0 <= e <= 18 implies #[trigger] pow10(e) <= 1_000_000_000_000_000_000 by {
        lemma_pow10_monotone(e, 18);
    }
}

proof fn lemma_pow10_ge_one(e: int)
    ensures
        pow10(e) >= 1,
    decreases e,
{
    if e > 0 {
        lemma_pow10_ge_one(e - 1);
    }
}

proof fn lemma_pow10_monotone(e1: int, e2: int)
    requires
        e1 <= e2,
    ensures
        pow10(e1) <= pow10(e2),
    decreases e2 - e1,
{
    if e1 < e2 {
        lemma_pow10_monotone(e1, e2 - 1);
        lemma_pow10_ge_one(e2 - 1);
    }
}

/// `10^e` for `e <= 18`.
fn pow10_e(e: usize) -> (r: u64)
    requires
        e <= 18,
    ensures
        r as int == pow10(e as int),
        1 <= r <= 1_000_000_000_000_000_000,
{
    proof {
        lemma_pow10_vals();
    }
    let mut r: u64 = 1;
    let mut k: usize = 0;
    while k < e
        invariant
            0 <= k <= e <= 18,
            r as int == pow10(k as int),
            1 <= r <= 1_000_000_000_000_000_000,
        decreases e - k,
    {
        proof {
            lemma_pow10_monotone(k as int + 1, 18);
            lemma_pow10_vals();
        }
        r = r * 10;
        k = k + 1;
    }
    r
}


/// Find the end of the digit run starting at `pos`.
fn digits_end_e(s: &str, pos: usize) -> (r: usize)
    requires
        s.is_ascii(),
        pos <= s@.len(),
    ensures
        r as int == digits_end(bytes_of(s@), pos as int),
        pos <= r <= s@.len(),
{
    let ghost bs = bytes_of(s@);
    let n: usize = s.unicode_len();
    let mut j: usize = pos;
    loop
        invariant
            s.is_ascii(),
            pos <= j <= n,
            n == s@.len(),
            bs == bytes_of(s@),
            digits_end(bs, pos as int) == digits_end(bs, j as int),
        decreases n - j,
    {
        let mut run_over: bool = j >= n;
        if !run_over {
            let b = s.get_ascii(j);
            if 48 <= b && b <= 57 {
                j = j + 1;
            } else {
                run_over = true;
            }
        }
        if run_over {
            proof {
                assert(digits_end(bs, j as int) == j as int);
            }
            return j;
        }
    }
}

/// Parse an integer coordinate: a decimal number with an all-zero
/// fraction, within the coordinate bound.
fn parse_coord(s: &str, pos: usize) -> (r: Result<(i64, usize), ParseError>)
    requires
        s.is_ascii(),
        pos <= s@.len(),
    ensures
        match r {
            Ok((c, np)) => spec_coord(bytes_of(s@), pos as int) == Some((c as int, np as int))
                && -COORD_BOUND <= c <= COORD_BOUND && pos < np <= s@.len(),
            Err(e) => spec_coord(bytes_of(s@), pos as int) is None && e.offset <= s@.len(),
        },
{
    let ghost bs = bytes_of(s@);
    let n: usize = s.unicode_len();
    if pos >= n {
        return Err(ParseError::new(pos, "number"));
    }
    let b0 = s.get_ascii(pos);
    let neg = b0 == 45;
    let i1: usize = if b0 == 45 || b0 == 43 {
        pos + 1
    } else {
        pos
    };
    let e1 = digits_end_e(s, i1);
    proof {
        lemma_digits_run(bs, i1 as int);
    }

    // the integer part, capped at the coordinate bound
    let mut v: i64 = 0;
    let mut big: bool = false;
    let mut cur: usize = i1;
    while cur < e1
        invariant
            s.is_ascii(),
            i1 <= cur <= e1 <= n,
            n == s@.len(),
            bs == bytes_of(s@),
            e1 as int == digits_end(bs, i1 as int),
            forall|k: int| i1 <= k < e1 ==> is_digit_byte(#[trigger] bs[k]),
            !big ==> v as int == digits_val(bs, i1 as int, cur as int) && 0 <= v <= COORD_BOUND,
            big ==> digits_val(bs, i1 as int, cur as int) > COORD_BOUND as int,
        decreases e1 - cur,
    {
        let b = s.get_ascii(cur);
        proof {
            assert(is_digit_byte(bs[cur as int]));
            lemma_digits_val_nonneg(bs, i1 as int, cur as int);
            let prev = digits_val(bs, i1 as int, cur as int);
            assert(prev * 10 >= prev) by (nonlinear_arith)
                requires
                    prev >= 0,
            ;
        }
        if !big {
            let nv: i64 = v * 10 + ((b - 48) as i64);
            if nv <= COORD_BOUND {
                v = nv;
            } else {
                big = true;
            }
        }
        cur = cur + 1;
    }

    // the optional fraction, which must be all zeros
    let mut has_dot: bool = false;
    let mut e2: usize = e1;
    let mut allz: bool = true;
    if e1 < n && s.get_ascii(e1) == 46 {
        has_dot = true;
        e2 = digits_end_e(s, e1 + 1);
        let mut f: usize = e1 + 1;
        while f < e2
            invariant
                s.is_ascii(),
                e1 + 1 <= f <= e2 <= n,
                n == s@.len(),
                bs == bytes_of(s@),
                allz == (forall|j: int| e1 + 1 <= j < f ==> (#[trigger] bs[j]) == 48),
            decreases e2 - f,
        {
            let b = s.get_ascii(f);
            if b != 48 {
                allz = false;
                proof {
                    assert(bs[f as int] != 48);
                }
            } else {
                proof {
                    assert(bs[f as int] == 48);
                }
            }
            f = f + 1;
        }
    }

    if !(e1 > i1 || (has_dot && e2 > e1 + 1)) {
        return Err(ParseError::new(pos, "number"));
    }
    if big || !allz {
        return Err(ParseError::new(pos, "coordinate"));
    }
    let c: i64 = if neg {
        -v
    } else {
        v
    };
    let np: usize = if has_dot {
        e2
    } else {
        e1
    };
    Ok((c, np))
}

/// Parse a decimal number into an exact `Decimal`.
fn parse_number(s: &str, pos: usize) -> (r: Result<(Decimal, usize), ParseError>)
    requires
        s.is_ascii(),
        pos <= s@.len(),
    ensures
        match r {
            Ok((d, np)) => {
                let sp = spec_number(bytes_of(s@), pos as int);
                sp is Some && (sp->0).end == np as int && num_matches(d, sp->0) && pos < np
                    <= s@.len()
            },
            Err(e) => spec_number(bytes_of(s@), pos as int) is None && e.offset <= s@.len(),
        },
{
    let ghost bs = bytes_of(s@);
    let n: usize = s.unicode_len();
    proof {
        lemma_pow10_vals();
    }
    if pos >= n {
        return Err(ParseError::new(pos, "number"));
    }
    let b0 = s.get_ascii(pos);
    let neg = b0 == 45;
    let i1: usize = if b0 == 45 || b0 == 43 {
        pos + 1
    } else {
        pos
    };
    let e1 = digits_end_e(s, i1);
    proof {
        lemma_digits_run(bs, i1 as int);
    }

    // the integer part, capped at the mantissa range
    let mut v: u64 = 0;
    let mut big: bool = false;
    let mut cur: usize = i1;
    while cur < e1
        invariant
            s.is_ascii(),
            i1 <= cur <= e1 <= n,
            n == s@.len(),
            bs == bytes_of(s@),
            e1 as int == digits_end(bs, i1 as int),
            forall|k: int| i1 <= k < e1 ==> is_digit_byte(#[trigger] bs[k]),
            !big ==> v as int == digits_val(bs, i1 as int, cur as int) && v
                <= 9_223_372_036_854_775_807,
            big ==> digits_val(bs, i1 as int, cur as int) > 9_223_372_036_854_775_807,
        decreases e1 - cur,
    {
        let b = s.get_ascii(cur);
        proof {
            assert(is_digit_byte(bs[cur as int]));
            lemma_digits_val_nonneg(bs, i1 as int, cur as int);
            let prev = digits_val(bs, i1 as int, cur as int);
            assert(prev * 10 >= prev) by (nonlinear_arith)
                requires
                    prev >= 0,
            ;
        }
        let d: u64 = (b - 48) as u64;
        if !big {
            if v < 922_337_203_685_477_580 || (v == 922_337_203_685_477_580 && d <= 7) {
                v = v * 10 + d;
            } else {
                big = true;
            }
        }
        cur = cur + 1;
    }

    // the optional fraction
    let mut has_dot: bool = false;
    let mut e2: usize = e1;
    let mut vf: u64 = 0;
    let mut fd: usize = 0;
    if e1 < n && s.get_ascii(e1) == 46 {
        has_dot = true;
        e2 = digits_end_e(s, e1 + 1);
        proof {
            lemma_digits_run(bs, e1 as int + 1);
        }
        fd = e2 - (e1 + 1);
        if fd > 18 {
            return Err(ParseError::new(pos, "number"));
        }
        let mut f: usize = e1 + 1;
        while f < e2
            invariant
                s.is_ascii(),
                e1 + 1 <= f <= e2 <= n,
                e2 - (e1 + 1) <= 18,
                n == s@.len(),
                bs == bytes_of(s@),
                forall|k: int| e1 + 1 <= k < e2 ==> is_digit_byte(#[trigger] bs[k]),
                vf as int == digits_val(bs, e1 as int + 1, f as int),
                (vf as int) < pow10(f as int - (e1 as int + 1)),
            decreases e2 - f,
        {
            let b = s.get_ascii(f);
            proof {
                assert(is_digit_byte(bs[f as int]));
                lemma_digits_val_lt_pow(bs, e1 as int + 1, f as int + 1);
                lemma_pow10_monotone(f as int + 1 - (e1 as int + 1), 18);
                lemma_pow10_vals();
            }
            vf = vf * 10 + ((b - 48) as u64);
            f = f + 1;
        }
    }

    if !(e1 > i1 || (has_dot && e2 > e1 + 1)) {
        return Err(ParseError::new(pos, "number"));
    }
    proof {
        lemma_digits_val_nonneg(bs, i1 as int, e1 as int);
        lemma_digits_val_nonneg(bs, e1 as int + 1, e2 as int);
        lemma_pow10_vals();
        let iv = digits_val(bs, i1 as int, e1 as int);
        let pw = pow10(fd as int);
        assert(iv * pw >= iv) by (nonlinear_arith)
            requires
                iv >= 0,
                pw >= 1,
        ;
    }
    if big {
        return Err(ParseError::new(pos, "number"));
    }
    let pw = pow10_e(fd);
    proof {
        crate::geom::lemma_mul_bound(
            v as int,
            pw as int,
            9_223_372_036_854_775_807,
            1_000_000_000_000_000_000,
        );
    }
    let m: u128 = (v as u128) * (pw as u128) + (vf as u128);
    if m > 9_223_372_036_854_775_807u128 {
        return Err(ParseError::new(pos, "number"));
    }
    let mi: i64 = m as i64;
    let mantissa: i64 = if neg {
        -mi
    } else {
        mi
    };
    let np: usize = if has_dot {
        e2
    } else {
        e1
    };
    Ok((Decimal { mantissa, frac_digits: fd as u8 }, np))
}


/// Parse a parenthesised coordinate triple.
fn parse_point(s: &str, pos: usize) -> (r: Result<(Vec3, usize), ParseError>)
    requires
        s.is_ascii(),
        pos <= s@.len(),
    ensures
        match r {
            Ok((p, np)) => spec_point(bytes_of(s@), pos as int) == Some((p@, np as int))
                && v3_in_bounds(p@, COORD_BOUND as int) && pos < np <= s@.len(),
            Err(e) => spec_point(bytes_of(s@), pos as int) is None && e.offset <= s@.len(),
        },
{
    let n: usize = s.unicode_len();
    if pos >= n || s.get_ascii(pos) != 40 {
        return Err(ParseError::new(pos, "point"));
    }
    let ix = skip_ws(s, pos + 1);
    let (x, jx) = match parse_coord(s, ix) {
        Ok(v) => v,
        Err(e) => {
            return Err(e);
        },
    };
    let iy = skip_ws(s, jx);
    let (y, jy) = match parse_coord(s, iy) {
        Ok(v) => v,
        Err(e) => {
            return Err(e);
        },
    };
    let iz = skip_ws(s, jy);
    let (z, jz) = match parse_coord(s, iz) {
        Ok(v) => v,
        Err(e) => {
            return Err(e);
        },
    };
    let ic = skip_ws(s, jz);
    if ic >= n || s.get_ascii(ic) != 41 {
        return Err(ParseError::new(ic, "point"));
    }
    Ok((Vec3 { x, y, z }, ic + 1))
}

/// Parse one plane line.
#[verifier::spinoff_prover]
#[verifier::rlimit(60)]
fn parse_plane(s: &str, pos: usize) -> (r: Result<(Plane, usize), ParseError>)
    requires
        s.is_ascii(),
        pos <= s@.len(),
    ensures
        match r {
            Ok((p, np)) => {
                let sp = spec_plane(bytes_of(s@), pos as int);
                sp is Some && (sp->0).1 == np as int && plane_matches(p, (sp->0).0)
                    && plane_in_bounds(p) && pos < np <= s@.len()
            },
            Err(e) => spec_plane(bytes_of(s@), pos as int) is None && e.offset <= s@.len(),
        },
{
    let (p0, j0) = match parse_point(s, pos) {
        Ok(v) => v,
        Err(e) => {
            return Err(e);
        },
    };
    let (p1, j1) = match parse_point(s, skip_ws(s, j0)) {
        Ok(v) => v,
        Err(e) => {
            return Err(e);
        },
    };
    let (p2, j2) = match parse_point(s, skip_ws(s, j1)) {
        Ok(v) => v,
        Err(e) => {
            return Err(e);
        },
    };
    let (tex, jt) = match parse_texture(s, skip_ws(s, j2)) {
        Ok(v) => v,
        Err(e) => {
            return Err(e);
        },
    };
    let (xo, jxo) = match parse_number(s, skip_ws(s, jt)) {
        Ok(v) => v,
        Err(e) => {
            return Err(e);
        },
    };
    let (yo, jyo) = match parse_number(s, skip_ws(s, jxo)) {
        Ok(v) => v,
        Err(e) => {
            return Err(e);
        },
    };
    let (rot, jrot) = match parse_number(s, skip_ws(s, jyo)) {
        Ok(v) => v,
        Err(e) => {
            return Err(e);
        },
    };
    let (xs, jxs) = match parse_number(s, skip_ws(s, jrot)) {
        Ok(v) => v,
        Err(e) => {
            return Err(e);
        },
    };
    let (ys, jys) = match parse_number(s, skip_ws(s, jxs)) {
        Ok(v) => v,
        Err(e) => {
            return Err(e);
        },
    };
    let points: [Vec3; 3] = [p0, p1, p2];
    let p = Plane {
        points,
        texture: tex,
        x_offset: xo,
        y_offset: yo,
        rotation: rot,
        x_scale: xs,
        y_scale: ys,
    };
    proof {
        assert(p.points[0] == p0 && p.points[1] == p1 && p.points[2] == p2);
    }
    Ok((p, jys))
}

/// A named thing in the level: string properties plus solid brushes.
#[derive(Clone, Debug)]
pub struct Entity {
    /// Key/value pairs, in order of appearance.
    pub properties: Vec<(String, String)>,
    pub brushes: Vec<Brush>,
}

/// The value of the last pair carrying `key`, if any: a repeated key
/// behaves like repeated insertion into a key/value mapping, where the
/// latest value wins.
pub open spec fn spec_lookup(props: Seq<(String, String)>, key: Seq<char>) -> Option<Seq<char>>
    decreases props.len(),
{
    if props.len() == 0 {
        None
    } else if props.last().0@ == key {
        Some(props.last().1@)
    } else {
        spec_lookup(props.drop_last(), key)
    }
}

impl Entity {
    /// Look up a property value by key; with a repeated key the last
    /// occurrence wins.
    pub fn property(&self, key: &String) -> (r: Option<&String>)
        ensures
            match r {
                Some(v) => spec_lookup(self.properties@, key@) == Some(v@),
                None => spec_lookup(self.properties@, key@) is None,
            },
    {
        let ghost props = self.properties@;
        let mut i: usize = self.properties.len();
        proof {
            assert(props.subrange(0, props.len() as int) =~= props);
        }
        while i > 0
            invariant
                i <= props.len(),
                props == self.properties@,
                spec_lookup(props, key@) == spec_lookup(props.subrange(0, i as int), key@),
            decreases i,
        {
            i = i - 1;
            let ghost upto = props.subrange(0, i as int + 1);
            proof {
                assert(upto.last() == props[i as int]);
                assert(upto.drop_last() =~= props.subrange(0, i as int));
            }
            if self.properties[i].0 == *key {
                return Some(&self.properties[i].1);
            }
        }
        proof {
            assert(props.subrange(0, 0).len() == 0);
        }
        None
    }
}

/// A parsed level: its entities, in order.
#[derive(Clone, Debug)]
pub struct LevelMap {
    pub entities: Vec<Entity>,
}

/// The stored entity holds the parsed properties and brushes, in order.
pub open spec fn entity_matches(e: Entity, ev: EntityV) -> bool {
    e.properties@.len() == ev.props.len() && (forall|l: int|
        0 <= l < ev.props.len() ==> ascii_matches(
            (#[trigger] e.properties@[l]).0@,
            ev.props[l].0,
        ) && ascii_matches(e.properties@[l].1@, ev.props[l].1)) && e.brushes@.len()
        == ev.brushes.len() && (forall|l: int|
        0 <= l < ev.brushes.len() ==> brush_matches(#[trigger] e.brushes@[l], ev.brushes[l]))
}

/// The stored level holds the parsed entities, in order.
pub open spec fn level_matches(m: LevelMap, lv: LevelV) -> bool {
    m.entities@.len() == lv.ents.len() && (forall|l: int|
        0 <= l < lv.ents.len() ==> entity_matches(#[trigger] m.entities@[l], lv.ents[l]))
}

/// Every brush of the entity is within the coordinate bound.
pub open spec fn entity_in_bounds(e: Entity) -> bool {
    forall|l: int| 0 <= l < e.brushes@.len() ==> brush_in_bounds(#[trigger] e.brushes@[l])
}

/// Every plane of every brush of the level is within the coordinate
/// bound, as every plane the parser accepts is.
pub open spec fn level_in_bounds(m: LevelMap) -> bool {
    forall|l: int| 0 <= l < m.entities@.len() ==> entity_in_bounds(#[trigger] m.entities@[l])
}

/// Parse a brush block.
fn parse_brush(s: &str, pos: usize) -> (r: Result<(Brush, usize), ParseError>)
    requires
        s.is_ascii(),
        pos <= s@.len(),
    ensures
        match r {
            Ok((b, np)) => {
                let sp = spec_brush(bytes_of(s@), pos as int);
                sp is Some && (sp->0).1 == np as int && brush_matches(b, (sp->0).0)
                    && brush_in_bounds(b) && pos < np <= s@.len()
            },
            Err(e) => spec_brush(bytes_of(s@), pos as int) is None && e.offset <= s@.len(),
        },
{
    let ghost bs = bytes_of(s@);
    let n: usize = s.unicode_len();
    if pos >= n || s.get_ascii(pos) != 123 {
        return Err(ParseError::new(pos, "brush"));
    }
    let start = skip_ws(s, pos + 1);
    let mut planes: Vec<Plane> = Vec::new();
    let ghost mut acc: Seq<PlaneV> = Seq::empty();
    let mut i: usize = start;
    loop
        invariant
            s.is_ascii(),
            pos < i <= n,
            n == s@.len(),
            bs == bytes_of(s@),
            bs[pos as int] == 123,
            start as int == spec_ws(bs, pos as int + 1),
            spec_brush_items(bs, start as int, Seq::empty()) == spec_brush_items(
                bs,
                i as int,
                acc,
            ),
            planes@.len() == acc.len(),
            forall|l: int| 0 <= l < acc.len() ==> plane_matches(#[trigger] planes@[l], acc[l]),
            forall|l: int| 0 <= l < acc.len() ==> plane_in_bounds(#[trigger] planes@[l]),
        decreases n - i,
    {
        if i >= n {
            return Err(ParseError::new(i, "brush"));
        }
        let b = s.get_ascii(i);
        if b == 125 {
            return Ok((Brush { planes }, i + 1));
        }
        match parse_plane(s, i) {
            Ok((pl, j)) => {
                let j2 = skip_ws(s, j);
                proof {
                    let plv = (spec_plane(bs, i as int)->0).0;
                    assert(spec_brush_items(bs, i as int, acc) == spec_brush_items(
                        bs,
                        j2 as int,
                        acc.push(plv),
                    ));
                    acc = acc.push(plv);
                }
                planes.push(pl);
                i = j2;
            },
            Err(e) => {
                return Err(e);
            },
        }
    }
}

/// Parse an entity block.
fn parse_entity(s: &str, pos: usize) -> (r: Result<(Entity, usize), ParseError>)
    requires
        s.is_ascii(),
        pos <= s@.len(),
    ensures
        match r {
            Ok((e, np)) => {
                let sp = spec_entity(bytes_of(s@), pos as int);
                sp is Some && (sp->0).1 == np as int && entity_matches(e, (sp->0).0)
                    && entity_in_bounds(e) && pos < np <= s@.len()
            },
            Err(e) => spec_entity(bytes_of(s@), pos as int) is None && e.offset <= s@.len(),
        },
{
    let ghost bs = bytes_of(s@);
    let n: usize = s.unicode_len();
    if pos >= n || s.get_ascii(pos) != 123 {
        return Err(ParseError::new(pos, "entity"));
    }
    let start = skip_ws(s, pos + 1);
    let mut properties: Vec<(String, String)> = Vec::new();
    let mut brushes: Vec<Brush> = Vec::new();
    let ghost mut accp: Seq<(Seq<u8>, Seq<u8>)> = Seq::empty();
    let ghost mut accb: Seq<Seq<PlaneV>> = Seq::empty();
    let mut i: usize = start;
    loop
        invariant
            s.is_ascii(),
            pos < i <= n,
            n == s@.len(),
            bs == bytes_of(s@),
            bs[pos as int] == 123,
            start as int == spec_ws(bs, pos as int + 1),
            spec_entity_items(bs, start as int, Seq::empty(), Seq::empty()) == spec_entity_items(
                bs,
                i as int,
                accp,
                accb,
            ),
            properties@.len() == accp.len(),
            forall|l: int|
                0 <= l < accp.len() ==> ascii_matches(
                    (#[trigger] properties@[l]).0@,
                    accp[l].0,
                ) && ascii_matches(properties@[l].1@, accp[l].1),
            brushes@.len() == accb.len(),
            forall|l: int| 0 <= l < accb.len() ==> brush_matches(#[trigger] brushes@[l], accb[l]),
            forall|l: int| 0 <= l < accb.len() ==> brush_in_bounds(#[trigger] brushes@[l]),
        decreases n - i,
    {
        if i >= n {
            return Err(ParseError::new(i, "entity"));
        }
        let b = s.get_ascii(i);
        if b == 125 {
            return Ok((Entity { properties, brushes }, i + 1));
        }
        if b == 34 {
            let (k, jk) = match parse_string(s, i) {
                Ok(v) => v,
                Err(e) => {
                    return Err(e);
                },
            };
            let iv = skip_ws(s, jk);
            let (v, jv) = match parse_string(s, iv) {
                Ok(v) => v,
                Err(e) => {
                    return Err(e);
                },
            };
            let j2 = skip_ws(s, jv);
            proof {
                let kv = (spec_property(bs, i as int)->0).0;
                assert(spec_entity_items(bs, i as int, accp, accb) == spec_entity_items(
                    bs,
                    j2 as int,
                    accp.push(kv),
                    accb,
                ));
                accp = accp.push(kv);
            }
            properties.push((k, v));
            i = j2;
        } else if b == 123 {
            match parse_brush(s, i) {
                Ok((br, j)) => {
                    let j2 = skip_ws(s, j);
                    proof {
                        let bv = (spec_brush(bs, i as int)->0).0;
                        assert(spec_entity_items(bs, i as int, accp, accb) == spec_entity_items(
                            bs,
                            j2 as int,
                            accp,
                            accb.push(bv),
                        ));
                        accb = accb.push(bv);
                    }
                    brushes.push(br);
                    i = j2;
                },
                Err(e) => {
                    return Err(e);
                },
            }
        } else {
            return Err(ParseError::new(i, "entity"));
        }
    }
}

impl LevelMap {
    pub fn new(entities: Vec<Entity>) -> (r: LevelMap)
        ensures
            r.entities == entities,
    {
        LevelMap { entities }
    }

    /// Parse a whole map text.
    ///
    /// The input must be ASCII and must parse to its end; the result then
    /// holds exactly the entities the grammar describes, with every plane
    /// coordinate within the brush coordinate bound.
    pub fn from_str(s: &str) -> (r: Result<LevelMap, ParseError>)
        ensures
            (vstd::string::is_ascii(s) && spec_level(bytes_of(s@)) is Some) <==> r is Ok,
            match r {
                Ok(m) => level_matches(m, spec_level(bytes_of(s@))->0) && level_in_bounds(m),
                Err(e) => e.offset <= s@.len(),
            },
    {
        let ghost bs = bytes_of(s@);
        if !s.is_ascii() {
            return Err(ParseError::new(0, "ascii"));
        }
        let n: usize = s.unicode_len();
        let start = skip_ws(s, 0);
        let mut entities: Vec<Entity> = Vec::new();
        let ghost mut acc: Seq<EntityV> = Seq::empty();
        let mut i: usize = start;
        loop
            invariant
                s.is_ascii(),
                i <= n,
                n == s@.len(),
                bs == bytes_of(s@),
                start as int == spec_ws(bs, 0),
                spec_level_items(bs, start as int, Seq::empty()) == spec_level_items(
                    bs,
                    i as int,
                    acc,
                ),
                entities@.len() == acc.len(),
                forall|l: int| 0 <= l < acc.len() ==> entity_matches(
                    #[trigger] entities@[l],
                    acc[l],
                ),
                forall|l: int| 0 <= l < acc.len() ==> entity_in_bounds(#[trigger] entities@[l]),
            decreases n - i,
        {
            if i >= n {
                return Ok(LevelMap { entities });
            }
            let b = s.get_ascii(i);
            if b == 123 {
                match parse_entity(s, i) {
                    Ok((e, j)) => {
                        let j2 = skip_ws(s, j);
                        proof {
                            let ev = (spec_entity(bs, i as int)->0).0;
                            assert(spec_level_items(bs, i as int, acc) == spec_level_items(
                                bs,
                                j2 as int,
                                acc.push(ev),
                            ));
                            acc = acc.push(ev);
                        }
                        entities.push(e);
                        i = j2;
                    },
                    Err(e) => {
                        return Err(e);
                    },
                }
            } else {
                return Err(ParseError::new(i, "entity"));
            }
        }
    }
}

} // verus!
