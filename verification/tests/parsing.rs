use rs_trace::fx::{Fx, FX_ONE};
use rs_trace::parse::{parse_scene, ParseError};
use rs_trace::scene::Surface;

fn aspect_one() -> Fx {
    Fx::of_int(1)
}

#[test]
fn sphere_and_plane_lines_build_the_scene() {
    let input = b"s 0 0 3 1\np 0 -1 0 0 1 0\n";
    let scene = parse_scene(input, aspect_one(), None, None).expect("must parse");
    assert_eq!(scene.surfaces.len(), 2);
    match &scene.surfaces[0] {
        Surface::Sphere(s) => {
            assert_eq!(s.center.x.bits, 0);
            assert_eq!(s.center.y.bits, 0);
            assert_eq!(s.center.z.bits, 3 * FX_ONE);
            assert_eq!(s.radius.bits, FX_ONE);
        },
        _ => panic!("first record must be a sphere"),
    }
    match &scene.surfaces[1] {
        Surface::Plane(p) => {
            assert_eq!(p.point.y.bits, -FX_ONE);
            assert_eq!(p.normal.y.bits, FX_ONE);
        },
        _ => panic!("second record must be a plane"),
    }
}

#[test]
fn unknown_leading_token_is_fatal() {
    let r = parse_scene(b"x 1 2 3\n", aspect_one(), None, None);
    assert_eq!(r.unwrap_err(), ParseError::UnexpectedSymbol);
}

#[test]
fn two_camera_lines_are_fatal() {
    let input = b"c 0 0 0 0 0 3 30 1\nc 0 0 0 0 0 3 30 1\n";
    let r = parse_scene(input, aspect_one(), None, None);
    assert_eq!(r.unwrap_err(), ParseError::MultipleCameras);
}

#[test]
fn comments_and_blank_lines_are_skipped() {
    let input = b"# a scene\n\n   \ns 0 0 3 1 # the only sphere\n";
    let scene = parse_scene(input, aspect_one(), None, None).expect("must parse");
    assert_eq!(scene.surfaces.len(), 1);
}

#[test]
fn fractional_and_signed_numbers() {
    let input = b"s -1.5 0.25 +2 1\n";
    let scene = parse_scene(input, aspect_one(), None, None).expect("must parse");
    match &scene.surfaces[0] {
        Surface::Sphere(s) => {
            assert_eq!(s.center.x.bits, -(FX_ONE + 32768));
            assert_eq!(s.center.y.bits, 16384);
            assert_eq!(s.center.z.bits, 2 * FX_ONE);
        },
        _ => panic!("must be a sphere"),
    }
}

#[test]
fn malformed_number_is_fatal() {
    assert_eq!(
        parse_scene(b"s a 0 0 1\n", aspect_one(), None, None).unwrap_err(),
        ParseError::ExpectedNumber,
    );
    assert_eq!(
        parse_scene(b"s 1 2 3\n", aspect_one(), None, None).unwrap_err(),
        ParseError::ExpectedNumber,
    );
    assert_eq!(
        parse_scene(b"s 1.2.3 0 0 1\n", aspect_one(), None, None).unwrap_err(),
        ParseError::ExpectedNumber,
    );
    assert_eq!(
        parse_scene(b"s . 0 0 1\n", aspect_one(), None, None).unwrap_err(),
        ParseError::ExpectedNumber,
    );
}

#[test]
fn oversized_number_is_fatal() {
    assert_eq!(
        parse_scene(b"s 99999999 0 0 1\n", aspect_one(), None, None).unwrap_err(),
        ParseError::NumberOutOfRange,
    );
}

#[test]
fn trailing_token_after_plane_is_fatal() {
    assert_eq!(
        parse_scene(b"p 0 0 0 0 1 0 7\n", aspect_one(), None, None).unwrap_err(),
        ParseError::TrailingToken,
    );
}

#[test]
fn camera_looking_at_its_own_eye_is_fatal() {
    assert_eq!(
        parse_scene(b"c 1 1 1 1 1 1 30 1\n", aspect_one(), None, None).unwrap_err(),
        ParseError::DegenerateCamera,
    );
}

#[test]
fn trailing_tokens_after_sphere_are_ignored() {
    let scene = parse_scene(b"s 0 0 3 1 9 9\n", aspect_one(), None, None).expect("must parse");
    assert_eq!(scene.surfaces.len(), 1);
}

#[test]
fn last_line_without_newline_still_counts() {
    let scene = parse_scene(b"s 0 0 3 1", aspect_one(), None, None).expect("must parse");
    assert_eq!(scene.surfaces.len(), 1);
}

#[test]
fn error_messages_describe_the_failure() {
    assert_eq!(ParseError::MultipleCameras.message(), "multiple camera definitions");
    assert_eq!(ParseError::UnexpectedSymbol.message(), "unexpected symbol");
}
