//! Colors and source-over compositing on 8-bit channels.
use vstd::arithmetic::div_mod::{
    lemma_fundamental_div_mod, lemma_fundamental_div_mod_converse, lemma_mod_pos_bound,
};
use vstd::prelude::*;

verus! {

/// A 32-bit RGBA color: red, green, blue and alpha, each from 0 to 255.
pub type Color = [u8; 4];

/// `p / q` rounded to the nearest integer, halves rounding up (for `p >= 0`, `q > 0`).
pub open spec fn round_div(p: int, q: int) -> int {
    (2 * p + q) / (2 * q)
}

/// The composite alpha of `an` over `ao`, scaled by 255 * 255:
/// `255 * 255 * (an' + (1 - an') * ao')` where `x' = x / 255`.
pub open spec fn out_weight(an: int, ao: int) -> int {
    an * 255 + ao * (255 - an)
}

/// One color channel of the composite, back on the 0..=255 scale:
/// `(cn' * an' + co' * ao' * (1 - an')) / out'`, rounded to nearest.
pub open spec fn mix_channel(cn: int, co: int, an: int, ao: int) -> int {
    round_div(cn * an * 255 + co * ao * (255 - an), out_weight(an, ao))
}

/// `c` with its alpha channel replaced by `a`.
pub open spec fn with_alpha(c: Color, a: u8) -> Color {
    [c[0], c[1], c[2], a]
}

/// Porter-Duff source-over of `new` over `old`. Where the composite is fully
/// transparent the channels are undefined by the formula; the old pixel is kept.
pub open spec fn blend_spec(old: Color, new: Color) -> Color {
    let an = new[3] as int;
    let ao = old[3] as int;
    let w = out_weight(an, ao);
    if w == 0 {
        old
    } else {
        [
            mix_channel(new[0] as int, old[0] as int, an, ao) as u8,
            mix_channel(new[1] as int, old[1] as int, an, ao) as u8,
            mix_channel(new[2] as int, old[2] as int, an, ao) as u8,
            round_div(w, 255) as u8,
        ]
    }
}

proof fn lemma_round_div_exact(c: int, w: int)
    requires
        c >= 0,
        w > 0,
    ensures
        round_div(c * w, w) == c,
{
    assert(2 * (c * w) + w == c * (2 * w) + w) by (nonlinear_arith);
    lemma_fundamental_div_mod_converse(2 * (c * w) + w, 2 * w, c, w);
}

pub proof fn lemma_round_div_bound(p: int, q: int, m: int)
    requires
        0 <= p <= m * q,
        q > 0,
        m >= 0,
    ensures
        0 <= round_div(p, q) <= m,
{
    let x = 2 * p + q;
    let d = 2 * q;
    lemma_fundamental_div_mod(x, d);
    lemma_mod_pos_bound(x, d);
    let k = x / d;
    let r = x % d;
    assert(0 <= k <= m) by (nonlinear_arith)
        requires
            x == d * k + r,
            0 <= r < d,
            0 <= p <= m * q,
            x == 2 * p + q,
            d == 2 * q,
            q > 0,
    ;
}

proof fn lemma_mix_in_range(cn: int, co: int, an: int, ao: int)
    requires
        0 <= cn <= 255,
        0 <= co <= 255,
        0 <= an <= 255,
        0 <= ao <= 255,
        out_weight(an, ao) > 0,
    ensures
        0 <= mix_channel(cn, co, an, ao) <= 255,
{
    let p = cn * an * 255 + co * ao * (255 - an);
    assert(0 <= p <= 255 * out_weight(an, ao)) by (nonlinear_arith)
        requires
            0 <= cn <= 255,
            0 <= co <= 255,
            0 <= an <= 255,
            0 <= ao <= 255,
            p == cn * an * 255 + co * ao * (255 - an),
    ;
    lemma_round_div_bound(p, out_weight(an, ao), 255);
}

fn mix_channel_exec(cn: u8, co: u8, an: u32, ao: u32, w: u32) -> (r: u8)
    requires
        an <= 255,
        ao <= 255,
        w == out_weight(an as int, ao as int),
        w > 0,
    ensures
        r == mix_channel(cn as int, co as int, an as int, ao as int),
{
    proof {
        lemma_mix_in_range(cn as int, co as int, an as int, ao as int);
    }
    assert(cn as int * an <= 255 * 255 && cn as int * an * 255 <= 255 * 255 * 255)
        by (nonlinear_arith)
        requires
            cn <= 255,
            an <= 255,
    ;
    assert(co as int * ao <= 255 * 255 && co as int * ao * (255 - an) <= 255 * 255 * 255)
        by (nonlinear_arith)
        requires
            co <= 255,
            ao <= 255,
            an <= 255,
    ;
    assert(w <= 255 * 255) by (nonlinear_arith)
        requires
            w == an * 255 + ao * (255 - an),
            ao <= 255,
            an <= 255,
    ;
    let p: u32 = (cn as u32) * an * 255 + (co as u32) * ao * (255 - an);
    ((2 * p + w) / (2 * w)) as u8
}

/// Composites `new` over `old` with the source-over operator.
pub fn blend(old: Color, new: Color) -> (r: Color)
    ensures
        r == blend_spec(old, new),
{
    let an: u32 = new[3] as u32;
    let ao: u32 = old[3] as u32;
    assert(ao * (255 - an) <= 255 * 255) by (nonlinear_arith)
        requires
            ao <= 255,
            an <= 255,
    ;
    let w: u32 = an * 255 + ao * (255 - an);
    if w == 0 {
        return old;
    }
    assert(w <= 255 * 255) by (nonlinear_arith)
        requires
            w == an * 255 + ao * (255 - an),
            ao <= 255,
            an <= 255,
    ;
    proof {
        lemma_round_div_bound(w as int, 255, 255);
    }
    [
        mix_channel_exec(new[0], old[0], an, ao, w),
        mix_channel_exec(new[1], old[1], an, ao, w),
        mix_channel_exec(new[2], old[2], an, ao, w),
        ((2 * w + 255) / 510) as u8,
    ]
}

/// Blending a color over itself keeps its red, green and blue, and gives the
/// alpha `a + a * (1 - a)` (rounded): the source-over formula, not an average.
pub proof fn lemma_blend_self(c: Color)
    ensures
        blend_spec(c, c) == with_alpha(c, round_div(out_weight(c[3] as int, c[3] as int), 255) as u8),
{
    let a = c[3] as int;
    let w = out_weight(a, a);
    if w == 0 {
        assert(a == 0) by (nonlinear_arith)
            requires
                w == a * 255 + a * (255 - a),
                0 <= a <= 255,
                w == 0,
        ;
        assert(round_div(0, 255) == 0);
    } else {
        assert forall|i: int| 0 <= i < 3 implies mix_channel(c[i] as int, c[i] as int, a, a) == c[i] by {
            let ci = c[i] as int;
            assert(ci * a * 255 + ci * a * (255 - a) == ci * w) by (nonlinear_arith)
                requires
                    w == a * 255 + a * (255 - a),
            ;
            lemma_round_div_exact(ci, w);
        }
    }
    assert(blend_spec(c, c) =~= with_alpha(c, round_div(w, 255) as u8));
}

/// A fully opaque color composited over anything is the color itself.
pub proof fn lemma_blend_opaque(old: Color, new: Color)
    requires
        new[3] == 255,
    ensures
        blend_spec(old, new) == new,
{
    let w = out_weight(255, old[3] as int);
    assert(w == 255 * 255);
    assert forall|i: int| 0 <= i < 3 implies mix_channel(new[i] as int, old[i] as int, 255, old[3] as int) == new[i] by {
        let cn = new[i] as int;
        assert(cn * 255 * 255 + old[i] as int * old[3] as int * (255 - 255) == cn * w) by (nonlinear_arith)
            requires
                w == 255 * 255,
        ;
        lemma_round_div_exact(cn, w);
    }
    lemma_fundamental_div_mod_converse(2 * w + 255, 510, 255, 255);
    assert(blend_spec(old, new) =~= new);
}

/// A fully transparent color composited over a pixel leaves the pixel as it was.
pub proof fn lemma_blend_transparent(old: Color, new: Color)
    requires
        new[3] == 0,
    ensures
        blend_spec(old, new) == old,
{
    let ao = old[3] as int;
    let w = out_weight(0, ao);
    assert(w == ao * 255);
    if w != 0 {
        assert forall|i: int| 0 <= i < 3 implies mix_channel(new[i] as int, old[i] as int, 0, ao) == old[i] by {
            let co = old[i] as int;
            assert(new[i] as int * 0 * 255 + co * ao * (255 - 0) == co * w) by (nonlinear_arith)
                requires
                    w == ao * 255,
            ;
            lemma_round_div_exact(co, w);
        }
        lemma_round_div_exact(ao, 255);
        assert(blend_spec(old, new) =~= old);
    }
}

} // verus!
