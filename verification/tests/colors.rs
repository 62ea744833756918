use compress_highlight::palette::{color_of, gradient_sample, Rgb};
use compress_highlight::score::{score, Score};

fn cool(t: f64) -> Rgb {
    let (r, g, b) = colorous::COOL.eval_continuous(t).as_tuple();
    Rgb { r, g, b }
}

fn fraction(numerator: u128, denominator: u128) -> Score {
    Score {
        numerator,
        denominator,
    }
}

#[test]
fn zero_is_the_start_of_the_gradient() {
    assert_eq!(color_of(Score::zero()), cool(0.0));
    assert_eq!(
        color_of(Score::zero()),
        Rgb {
            r: 109,
            g: 63,
            b: 169
        }
    );
}

#[test]
fn one_is_the_end_of_the_gradient() {
    assert_eq!(color_of(fraction(1, 1)), cool(1.0));
    assert_eq!(color_of(fraction(4, 4)), cool(1.0));
    assert_eq!(
        color_of(fraction(1, 1)),
        Rgb {
            r: 175,
            g: 239,
            b: 90
        }
    );
}

#[test]
fn a_fraction_is_its_position_on_the_gradient() {
    assert_eq!(color_of(fraction(1, 2)), cool(0.5));
    assert_eq!(color_of(fraction(4, 8)), cool(0.5));
    assert_eq!(color_of(fraction(1, 4)), cool(0.25));
    assert_eq!(color_of(fraction(3, 4)), cool(0.75));
    assert_eq!(color_of(score(2, Some(0), 1024)), cool(0.5));
}

#[test]
fn colors_differ_along_the_gradient() {
    assert_ne!(color_of(fraction(0, 1)), color_of(fraction(1, 2)));
    assert_ne!(color_of(fraction(1, 2)), color_of(fraction(1, 1)));
    assert_ne!(color_of(fraction(0, 1)), color_of(fraction(1, 1)));
}

#[test]
fn a_large_denominator_is_reduced() {
    let huge = usize::MAX as u128;
    // One half, written with a denominator that is no machine integer.
    assert_eq!(color_of(fraction(huge, 2 * huge)), cool(0.5));
    assert_eq!(color_of(fraction(0, huge * huge)), cool(0.0));
    assert_eq!(color_of(fraction(huge * huge, huge * huge)), cool(1.0));
    assert_eq!(color_of(score(usize::MAX, Some(0), usize::MAX)), cool(0.0));
}

#[test]
fn a_score_is_sample_i_of_d_plus_one() {
    assert_eq!(gradient_sample(Score::zero()), (0, 2));
    assert_eq!(gradient_sample(fraction(1, 1)), (1, 2));
    assert_eq!(gradient_sample(fraction(1, 2)), (1, 3));
    assert_eq!(gradient_sample(fraction(3, 20)), (3, 21));
    assert_eq!(gradient_sample(score(5, Some(1), 4)), (3, 21));
    assert_eq!(gradient_sample(score(2, Some(0), 1024)), (1024, 2049));
}

#[test]
fn a_sample_is_halved_until_it_fits() {
    let huge = usize::MAX as u128;
    assert_eq!(
        gradient_sample(fraction(7, huge - 1)),
        (7, usize::MAX)
    );
    assert_eq!(
        gradient_sample(fraction(7, huge)),
        (3, usize::MAX / 2 + 1)
    );
    assert_eq!(
        gradient_sample(fraction(huge, 2 * huge)),
        (usize::MAX >> 2, (usize::MAX >> 1) + 1)
    );
    let (i, n) = gradient_sample(score(usize::MAX, Some(0), usize::MAX));
    assert!(i < n);
}

#[test]
fn a_color_is_put_together_from_its_parts() {
    assert_eq!(
        Rgb::from_tuple((1, 2, 3)),
        Rgb { r: 1, g: 2, b: 3 }
    );
    assert_eq!(
        Rgb::from_tuple(colorous::COOL.eval_rational(1, 3).as_tuple()),
        color_of(fraction(1, 2))
    );
}
