//! Strokes to symbols.
use ink2tex::float::{num, F32};
use ink2tex::stroke::{Point, Stroke};

fn f(x: f32) -> F32 {
    num(x.to_bits())
}

fn v(x: F32) -> f32 {
    f32::from_bits(x.bits)
}

fn atan2(y: F32, x: F32) -> F32 {
    f(v(y).atan2(v(x)))
}

fn segment(strokes: &[Stroke]) -> Vec<Vec<usize>> {
    ink2tex::segment::segment(strokes, &atan2)
}

fn stroke(pts: &[(f32, f32)]) -> Stroke {
    Stroke::from_points(
        pts.iter()
            .map(|&(x, y)| Point::new(f(x), f(y), f(1.0), f(0.0), f(0.0), 0))
            .collect(),
    )
}

fn boxed(min_x: f32, max_x: f32, min_y: f32, max_y: f32) -> Stroke {
    Stroke {
        points: vec![
            Point::new(f(min_x), f(min_y), f(1.0), f(0.0), f(0.0), 0),
            Point::new(f(max_x), f(max_y), f(1.0), f(0.0), f(0.0), 1),
        ],
    }
}

#[test]
fn a_radical_does_not_swallow_the_expression_underneath_it() {
    let radical = stroke(&[(0.30, 0.50), (0.33, 0.58), (0.36, 0.38), (0.62, 0.38)]);
    let g = segment(&[
        radical,
        glyph(0.39, 0.42, 0.05, 0.07),
        glyph(0.46, 0.42, 0.05, 0.07),
        glyph(0.53, 0.42, 0.04, 0.07),
    ]);
    assert_eq!(g.len(), 4, "√ merged with its contents: {g:?}");
}

#[test]
fn crossing_strokes_of_one_symbol_still_merge() {
    let g = segment(&[
        stroke(&[(0.40, 0.40), (0.46, 0.48)]),
        stroke(&[(0.46, 0.40), (0.40, 0.48)]),
    ]);
    assert_eq!(g.len(), 1, "an `x` is one symbol, not two: {g:?}");
}

#[test]
fn a_fraction_stays_numerator_bar_denominator() {
    let g = segment(&[
        glyph(0.40, 0.30, 0.06, 0.08),
        stroke(&[(0.36, 0.42), (0.52, 0.42)]),
        glyph(0.40, 0.47, 0.06, 0.08),
    ]);
    assert_eq!(g.len(), 3, "fraction collapsed: {g:?}");
}

#[test]
fn an_equals_sign_is_one_symbol_not_two_minuses() {
    let g = segment(&[
        stroke(&[(0.40, 0.470), (0.46, 0.472)]),
        stroke(&[(0.40, 0.516), (0.46, 0.514)]),
    ]);
    assert_eq!(g.len(), 1, "= split into {g:?}");
}

#[test]
fn minus_signs_on_a_baseline_stay_separate() {
    let g = segment(&[
        stroke(&[(0.20, 0.50), (0.26, 0.50)]),
        stroke(&[(0.40, 0.50), (0.46, 0.50)]),
        stroke(&[(0.60, 0.50), (0.66, 0.50)]),
    ]);
    assert_eq!(g.len(), 3, "minuses merged: {g:?}");
}

#[test]
fn a_fraction_bar_does_not_pair_with_a_numerator_minus() {
    let g = segment(&[
        stroke(&[(0.42, 0.42), (0.48, 0.42)]),
        stroke(&[(0.30, 0.50), (0.62, 0.50)]),
    ]);
    assert_eq!(g.len(), 2, "fraction bar swallowed the minus: {g:?}");
}

#[test]
fn a_slanted_equals_still_merges() {
    let g = segment(&[
        stroke(&[(0.40, 0.470), (0.46, 0.488)]),
        stroke(&[(0.40, 0.516), (0.46, 0.534)]),
    ]);
    assert_eq!(g.len(), 1, "slanted = split: {g:?}");
}

#[test]
fn stacked_curves_are_not_an_equals_sign() {
    let g = segment(&[
        stroke(&[(0.40, 0.46), (0.43, 0.41), (0.46, 0.46)]),
        stroke(&[(0.40, 0.52), (0.43, 0.57), (0.46, 0.52)]),
    ]);
    assert_eq!(g.len(), 2, "arcs merged as an =: {g:?}");
}

#[test]
fn an_enclosing_loop_does_not_absorb_what_it_encloses() {
    let loop_ = stroke(&[
        (0.20, 0.30),
        (0.70, 0.30),
        (0.70, 0.70),
        (0.20, 0.70),
        (0.20, 0.30),
    ]);
    let g = segment(&[
        loop_,
        glyph(0.35, 0.45, 0.06, 0.08),
        glyph(0.45, 0.45, 0.06, 0.08),
    ]);
    assert_eq!(g.len(), 3, "the loop swallowed its contents: {g:?}");
}


fn glyph(x: f32, y: f32, w: f32, h: f32) -> Stroke {
    stroke(&[(x, y), (x + w, y), (x + w, y + h), (x, y + h), (x, y)])
}


#[test]
fn two_separated_symbols_split() {
    let s = vec![boxed(0.00, 0.15, 0.40, 0.60), boxed(0.40, 0.55, 0.40, 0.60)];
    assert_eq!(segment(&s), vec![vec![0], vec![1]]);
}

#[test]
#[allow(clippy::approx_constant)]
fn live_tight_product_5x_splits_but_x_stays_whole() {
    let s = vec![
        stroke(&[(0.1667, 0.3257), (0.1749, 0.3221), (0.1758, 0.3220), (0.1843, 0.3245), (0.1902, 0.3321), (0.1860, 0.3430), (0.1779, 0.3496), (0.1758, 0.3501), (0.1730, 0.3479), (0.1753, 0.3414), (0.1884, 0.3408), (0.1973, 0.3446), (0.2001, 0.3466), (0.2010, 0.3461)]),
        stroke(&[(0.2397, 0.3335), (0.2397, 0.3338), (0.2397, 0.3338), (0.2395, 0.3341), (0.2389, 0.3353), (0.2373, 0.3372), (0.2349, 0.3401), (0.2323, 0.3430), (0.2317, 0.3436), (0.2290, 0.3469), (0.2271, 0.3492), (0.2256, 0.3507), (0.2247, 0.3518), (0.2247, 0.3518)]),
        stroke(&[(0.2191, 0.3395), (0.2191, 0.3397), (0.2197, 0.3397), (0.2205, 0.3399), (0.2218, 0.3401), (0.2235, 0.3407), (0.2257, 0.3412), (0.2282, 0.3418), (0.2306, 0.3425), (0.2323, 0.3430), (0.2327, 0.3428), (0.2350, 0.3439), (0.2374, 0.3446), (0.2396, 0.3449), (0.2406, 0.3448)]),
        stroke(&[(0.2743, 0.3388), (0.2738, 0.3389), (0.2736, 0.3390), (0.2736, 0.3388), (0.2736, 0.3390), (0.2737, 0.3390), (0.2743, 0.3392), (0.2762, 0.3397), (0.2793, 0.3399), (0.2808, 0.3402), (0.2830, 0.3399), (0.2866, 0.3399), (0.2908, 0.3397), (0.2948, 0.3395), (0.2949, 0.3394)]),
        stroke(&[(0.3536, 0.3221), (0.3435, 0.3230), (0.3347, 0.3232), (0.3336, 0.3258), (0.3305, 0.3345), (0.3301, 0.3363), (0.3301, 0.3366), (0.3307, 0.3370), (0.3414, 0.3362), (0.3497, 0.3397), (0.3498, 0.3401), (0.3495, 0.3421), (0.3440, 0.3473), (0.3315, 0.3512), (0.3302, 0.3510), (0.3290, 0.3503), (0.3321, 0.3468), (0.3330, 0.3462)]),
        stroke(&[(0.3731, 0.3363), (0.3737, 0.3351), (0.3739, 0.3352), (0.3739, 0.3353), (0.3739, 0.3354), (0.3737, 0.3353), (0.3720, 0.3372), (0.3667, 0.3425), (0.3654, 0.3438), (0.3600, 0.3492), (0.3570, 0.3522), (0.3571, 0.3524), (0.3574, 0.3523), (0.3588, 0.3496), (0.3587, 0.3466)]),
        stroke(&[(0.3559, 0.3401), (0.3556, 0.3395), (0.3555, 0.3398), (0.3555, 0.3398), (0.3558, 0.3398), (0.3571, 0.3404), (0.3595, 0.3415), (0.3626, 0.3429), (0.3656, 0.3440), (0.3667, 0.3443), (0.3706, 0.3455), (0.3747, 0.3462), (0.3765, 0.3462), (0.3782, 0.3461)]),
        stroke(&[(0.4052, 0.3301), (0.4051, 0.3298), (0.4052, 0.3297), (0.4055, 0.3296), (0.4074, 0.3297), (0.4109, 0.3296), (0.4154, 0.3295), (0.4210, 0.3291), (0.4261, 0.3286), (0.4304, 0.3283), (0.4337, 0.3282), (0.4343, 0.3282), (0.4372, 0.3282), (0.4384, 0.3286)]),
        stroke(&[(0.4164, 0.3423), (0.4175, 0.3427), (0.4186, 0.3427), (0.4201, 0.3430), (0.4219, 0.3429), (0.4240, 0.3429), (0.4247, 0.3432), (0.4264, 0.3427), (0.4290, 0.3426), (0.4317, 0.3424), (0.4345, 0.3423), (0.4372, 0.3418), (0.4396, 0.3419), (0.4418, 0.3418)]),
        stroke(&[(0.5055, 0.3187), (0.5058, 0.3161), (0.5026, 0.3153), (0.4933, 0.3177), (0.4799, 0.3266), (0.4798, 0.3268), (0.4798, 0.3271), (0.4799, 0.3281), (0.4879, 0.3339), (0.4970, 0.3392), (0.4906, 0.3447), (0.4884, 0.3457), (0.4815, 0.3431), (0.4813, 0.3423), (0.4813, 0.3421), (0.4918, 0.3322), (0.5081, 0.3205), (0.5091, 0.3196), (0.5092, 0.3193), (0.5060, 0.3198)]),
        stroke(&[(0.5369, 0.3191), (0.5353, 0.3180), (0.5296, 0.3203), (0.5212, 0.3280), (0.5209, 0.3286), (0.5194, 0.3334), (0.5194, 0.3340), (0.5202, 0.3369), (0.5274, 0.3415), (0.5347, 0.3427), (0.5362, 0.3426), (0.5431, 0.3393), (0.5463, 0.3324), (0.5463, 0.3318), (0.5441, 0.3215), (0.5400, 0.3174), (0.5397, 0.3174), (0.5384, 0.3179)]),
    ];
    let g = segment(&s);
    assert_eq!(
        g,
        vec![
            vec![0],
            vec![1, 2],
            vec![3],
            vec![4],
            vec![5, 6],
            vec![7, 8],
            vec![9],
            vec![10],
        ],
        "the live `2x-5x=80` must segment into exactly 8 symbols"
    );
}

#[test]
fn a_sloppy_width_equals_still_merges() {
    let s = vec![
        stroke(&[(0.413, 0.650), (0.433, 0.648), (0.453, 0.651)]),
        stroke(&[(0.416, 0.636), (0.427, 0.635), (0.437, 0.638)]),
        glyph(0.468, 0.633, 0.025, 0.027),
    ];
    let g = segment(&s);
    assert_eq!(g.len(), 2, "= must be one symbol, then the 2: {g:?}");
}

#[test]
fn a_fraction_bar_does_not_pair_with_the_numerator_minus() {
    let s = vec![
        stroke(&[(0.42, 0.40), (0.47, 0.40), (0.52, 0.40)]),
        stroke(&[(0.38, 0.50), (0.47, 0.50), (0.56, 0.50)]),
        glyph(0.44, 0.56, 0.06, 0.08),
    ];
    let g = segment(&s);
    assert_eq!(g.len(), 3, "fraction must stay bar/num/den: {g:?}");
}

#[test]
fn touching_side_by_side_strokes_still_merge() {
    let s = vec![
        stroke(&[(0.30, 0.30), (0.30, 0.40), (0.30, 0.50)]),
        stroke(&[(0.301, 0.40), (0.34, 0.32)]),
        stroke(&[(0.301, 0.40), (0.34, 0.50)]),
        glyph(0.40, 0.35, 0.08, 0.10),
    ];
    assert_eq!(segment(&s), vec![vec![0, 1, 2], vec![3]]);
}

#[test]
fn overlapping_strokes_are_one_symbol() {
    let s = vec![boxed(0.10, 0.30, 0.40, 0.60), boxed(0.12, 0.28, 0.42, 0.58)];
    assert_eq!(segment(&s), vec![vec![0, 1]]);
}

#[test]
fn vertical_stack_splits() {
    let s = vec![
        boxed(0.20, 0.60, 0.49, 0.51),
        boxed(0.38, 0.42, 0.28, 0.40),
        boxed(0.38, 0.42, 0.60, 0.72),
    ];
    assert_eq!(segment(&s).len(), 3);
}

#[test]
fn orders_left_to_right() {
    let s = vec![
        boxed(0.40, 0.55, 0.40, 0.60),
        boxed(0.80, 0.95, 0.40, 0.60),
        boxed(0.00, 0.15, 0.40, 0.60),
    ];
    assert_eq!(segment(&s), vec![vec![2], vec![0], vec![1]]);
}

#[test]
fn empty_and_blank_strokes() {
    assert!(segment(&[]).is_empty());
    assert!(segment(&[Stroke::new()]).is_empty());
}

fn level(y: f32) -> Stroke {
    stroke(&[(0.40, y), (0.46, y)])
}

#[test]
fn of_three_stacked_bars_the_closest_two_merge() {
    assert_eq!(
        segment(&[level(0.400), level(0.440), level(0.485)]),
        vec![vec![0, 1], vec![2]]
    );
    assert_eq!(
        segment(&[level(0.400), level(0.445), level(0.485)]),
        vec![vec![0], vec![1, 2]]
    );
}

#[test]
fn a_minus_below_a_fraction_bar_still_crowds() {
    // -a over -b: the bar must not take the minus above it for its partner
    let g = segment(&[
        stroke(&[(0.38, 0.50), (0.50, 0.50)]),
        stroke(&[(0.385, 0.44), (0.445, 0.44)]),
        stroke(&[(0.39, 0.56), (0.45, 0.56)]),
        glyph(0.46, 0.42, 0.03, 0.05),
        glyph(0.46, 0.54, 0.03, 0.05),
    ]);
    assert_eq!(g.len(), 5, "{g:?}");
}
