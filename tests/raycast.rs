use raycast::geometry::{intersect, Ratio, Triangle};
use raycast::mesh::{assemble_mesh, floor_triangle, GeometryRecord, MeshError};
use raycast::raster::{clip, intensity, ray_direction, render, RenderConfig};
use raycast::scene::{cast, depth_key, depth_sort, BACKGROUND};
use raycast::obj::{
    load_object, parse_decimal, parse_geometry, parse_index, parse_record, split_ranges, LoadError,
};
use raycast::vector::{cross, dot, square, subtract, sum, Vec3, COORD_LIMIT, SCALE};

fn v3(x: i128, y: i128, z: i128) -> Vec3 {
    v(x, y, z)
}

fn v(x: i128, y: i128, z: i128) -> Vec3 {
    Vec3::new(x, y, z)
}

fn camera() -> Vec3 {
    // (8, 0, 1.5) in scene units
    v(8 * SCALE, 0, 3 * SCALE / 2)
}

fn near_triangle() -> Triangle {
    Triangle::new(
        v(10 * SCALE, 0, SCALE),
        v(-10 * SCALE, -10 * SCALE, SCALE),
        v(-10 * SCALE, 10 * SCALE, SCALE),
    )
}

fn same_value(r: Ratio, num: i128, den: i128) -> bool {
    r.den > 0 && r.num * den == num * r.den
}

#[test]
fn vector_operations() {
    let a = v(1, 2, 3);
    let b = v(4, 5, 6);
    assert_eq!(subtract(a, b), v(-3, -3, -3));
    assert_eq!(cross(a, b), v(-3, 6, -3));
    assert_eq!(cross(b, a), v(3, -6, 3));
    assert_eq!(cross(a, a), v(0, 0, 0));
    assert_eq!(dot(a, b), 32);
    assert_eq!(square(v(-3, 2, 0)), v(9, 4, 0));
    assert_eq!(sum(v(9, 4, -1)), 12);
}

#[test]
fn floor_scenario_hits_at_one_and_a_half() {
    let floor = floor_triangle();
    let d = v(-SCALE, 0, -SCALE);
    let t = intersect(camera(), d, &floor);
    assert!(t.num > 0);
    assert!(same_value(t, 3, 2));
    let c = cast(&vec![floor], camera(), d);
    assert!(same_value(c, 3, 2));
    let g = intensity(c, 20);
    assert_eq!(g, 225);
}

#[test]
fn parallel_direction_gives_zero() {
    let floor = floor_triangle();
    assert_eq!(intersect(camera(), v(SCALE, 0, 0), &floor), Ratio { num: 0, den: 1 });
    assert_eq!(intersect(camera(), v(0, SCALE, 0), &floor), Ratio { num: 0, den: 1 });
}

#[test]
fn determinant_threshold_decides_parallel() {
    let unit = Triangle::new(v(0, 0, 0), v(SCALE, 0, 0), v(0, SCALE, 0));
    let o = v(0, SCALE / 4, 1);
    // determinant just under one millionth: treated as parallel
    assert_eq!(intersect(o, v(SCALE, 0, -1), &unit), Ratio { num: 0, den: 1 });
    // twice as steep: just over the threshold, and the hit is inside
    assert!(same_value(intersect(o, v(SCALE, 0, -2), &unit), 1, 2));
}

#[test]
fn ray_outside_triangle_gives_zero() {
    let t = intersect(v(0, 50 * SCALE, 10 * SCALE), v(0, 0, -SCALE), &near_triangle());
    assert_eq!(t.num, 0);
}

#[test]
fn ray_away_from_floor_gets_background() {
    let floor = floor_triangle();
    let up = v(0, 0, SCALE);
    let t = intersect(camera(), up, &floor);
    assert!(same_value(t, -3, 2));
    assert_eq!(cast(&vec![floor], camera(), up), Ratio { num: BACKGROUND, den: 1 });
    assert_eq!(cast(&Vec::new(), camera(), up), Ratio { num: 1000, den: 1 });
}

#[test]
fn first_triangle_in_order_wins() {
    let eye = v(0, 0, 10 * SCALE);
    let down = v(0, 0, -SCALE);
    let far_first = vec![floor_triangle(), near_triangle()];
    let near_first = vec![near_triangle(), floor_triangle()];
    assert!(same_value(cast(&far_first, eye, down), 10, 1));
    assert!(same_value(cast(&near_first, eye, down), 9, 1));
}

#[test]
fn depth_keys_in_scene_units() {
    let b = Triangle::new(v(8 * SCALE, 0, 0), v(0, 0, 0), v(0, SCALE, 0));
    let a = Triangle::new(v(0, 0, 0), v(SCALE, 0, 0), v(0, SCALE, 0));
    assert_eq!(depth_key(&b, camera()), 2);
    assert_eq!(depth_key(&a, camera()), 66);
    assert_eq!(depth_key(&floor_triangle(), camera()), 8466);
}

#[test]
fn depth_sort_orders_and_is_idempotent() {
    let a = Triangle::new(v(0, 0, 0), v(SCALE, 0, 0), v(0, SCALE, 0));
    let b = Triangle::new(v(8 * SCALE, 0, 0), v(0, 0, 0), v(0, SCALE, 0));
    let floor = floor_triangle();
    let mut mesh = vec![floor, a, b];
    depth_sort(&mut mesh, camera());
    assert_eq!(mesh, vec![b, a, floor]);
    let once = mesh.clone();
    depth_sort(&mut mesh, camera());
    assert_eq!(mesh, once);
}

#[test]
fn depth_sort_keeps_order_of_equal_keys() {
    let a = Triangle::new(v(0, 0, 0), v(SCALE, 0, 0), v(0, SCALE, 0));
    let a2 = Triangle::new(v(0, 0, 0), v(2 * SCALE, 0, 0), v(0, SCALE, 0));
    let b = Triangle::new(v(8 * SCALE, 0, 0), v(0, 0, 0), v(0, SCALE, 0));
    let mut mesh = vec![a2, a, b];
    depth_sort(&mut mesh, camera());
    assert_eq!(mesh, vec![b, a2, a]);
}

#[test]
fn intensity_mapping() {
    assert_eq!(intensity(Ratio { num: 0, den: 1 }, 20), 255);
    assert_eq!(intensity(Ratio { num: 0, den: 7 }, 20), 255);
    assert_eq!(intensity(Ratio { num: 255, den: 20 }, 20), 0);
    assert_eq!(intensity(Ratio { num: 1000, den: 1 }, 20), 0);
    assert_eq!(intensity(Ratio { num: 1, den: 2 }, 20), 245);
    assert_eq!(intensity(Ratio { num: 1, den: 3 }, 20), 248);
    assert_eq!(intensity(Ratio { num: -1, den: 1 }, 20), 255);
    assert_eq!(clip(-5), 0);
    assert_eq!(clip(7), 7);
}

fn floor_config(width: usize, height: usize, step: i128) -> RenderConfig {
    RenderConfig { width, height, pixel_step: step, camera: camera(), decay: 20 }
}

#[test]
fn ray_directions_follow_the_pinhole_model() {
    let cfg = floor_config(3, 3, SCALE / 2);
    assert_eq!(ray_direction(&cfg, 0, 0), v(-SCALE, -3 * SCALE / 4, 3 * SCALE / 4));
    assert_eq!(ray_direction(&cfg, 2, 1), v(-SCALE, -SCALE / 4, -SCALE / 4));
}

#[test]
fn render_two_by_two_is_deterministic() {
    let mesh = vec![floor_triangle()];
    let cfg = floor_config(2, 2, 604188);
    let first = render(&mesh, &cfg);
    let second = render(&mesh, &cfg);
    assert_eq!(first.len(), 2);
    assert!(first.iter().all(|row| row.len() == 2));
    assert_eq!(first, second);
    assert_eq!(first, vec![vec![0, 0], vec![0, 0]]);
}

#[test]
fn render_three_by_three_sees_floor_in_bottom_row() {
    let mesh = vec![floor_triangle()];
    let cfg = floor_config(3, 3, SCALE / 2);
    let grid = render(&mesh, &cfg);
    assert_eq!(grid, vec![vec![0, 0, 0], vec![0, 0, 0], vec![135, 135, 135]]);
}

#[test]
fn assemble_swaps_axes_and_appends_floor() {
    let recs = vec![
        GeometryRecord::Vertex(v(1, 2, 3)),
        GeometryRecord::Vertex(v(4, 5, 6)),
        GeometryRecord::Vertex(v(7, 8, 9)),
        GeometryRecord::Face(1, 2, 3),
        GeometryRecord::Face(3, 3, 1),
    ];
    let mesh = assemble_mesh(&recs).unwrap();
    assert_eq!(
        mesh,
        vec![
            Triangle::new(v(2, 1, 3), v(5, 4, 6), v(8, 7, 9)),
            Triangle::new(v(8, 7, 9), v(8, 7, 9), v(2, 1, 3)),
            floor_triangle(),
        ]
    );
    assert_eq!(assemble_mesh(&Vec::new()).unwrap(), vec![floor_triangle()]);
}

#[test]
fn assemble_rejects_bad_records() {
    let late = vec![
        GeometryRecord::Vertex(v(1, 2, 3)),
        GeometryRecord::Face(1, 1, 2),
        GeometryRecord::Vertex(v(4, 5, 6)),
    ];
    assert_eq!(assemble_mesh(&late), Err(MeshError::UndeclaredVertex(1)));
    let zero = vec![GeometryRecord::Vertex(v(1, 2, 3)), GeometryRecord::Face(0, 1, 1)];
    assert_eq!(assemble_mesh(&zero), Err(MeshError::UndeclaredVertex(1)));
    let big = vec![
        GeometryRecord::Vertex(v(1, 2, 3)),
        GeometryRecord::Vertex(v(0, COORD_LIMIT + 1, 0)),
        GeometryRecord::Face(9, 9, 9),
    ];
    assert_eq!(assemble_mesh(&big), Err(MeshError::CoordinateOutOfRange(1)));
}

fn bytes(s: &str) -> Vec<u8> {
    s.as_bytes().to_vec()
}

#[test]
fn split_ranges_follows_str_split() {
    let s = bytes("ab  c");
    let r = split_ranges(&s, 0, s.len(), b' ');
    assert_eq!(r, vec![(0, 2), (3, 3), (4, 5)]);
    let e = bytes("");
    assert_eq!(split_ranges(&e, 0, 0, b' '), vec![(0, 0)]);
}

#[test]
fn decimals_become_fixed_point() {
    let cases: Vec<(&str, Option<i128>)> = vec![
        ("1", Some(SCALE)),
        ("-2.5", Some(-5 * SCALE / 2)),
        ("0.5", Some(SCALE / 2)),
        (".25", Some(SCALE / 4)),
        ("3.", Some(3 * SCALE)),
        ("0.1", Some(104857)),
        ("-0.1", Some(-104857)),
        ("1.38137", Some(1448471)),
        ("", None),
        ("-", None),
        (".", None),
        ("1.2.3", None),
        ("1234567890", None),
        ("999999999", Some(999999999 * SCALE)),
        ("+1.0", Some(SCALE)),
        ("+2", Some(2 * SCALE)),
        ("1e-3", Some(1048)),
        ("-1e-3", Some(-1048)),
        ("2.5E2", Some(250 * SCALE)),
        ("-1e+2", Some(-100 * SCALE)),
        ("15e-1", Some(3 * SCALE / 2)),
        ("1.0000000000000000009", Some(SCALE)),
        ("0.0000000000000000001", Some(0)),
        ("1e-300", Some(0)),
        ("1e8", Some(100000000 * SCALE)),
        ("1e9", None),
        ("1e5", Some(100000 * SCALE)),
        ("1e", None),
        ("1e+", None),
        ("e5", None),
        ("+-1", None),
        ("1e2.5", None),
        ("1e1000000000", None),
    ];
    for (text, want) in cases {
        let s = bytes(text);
        assert_eq!(parse_decimal(&s, 0, s.len()), want, "{}", text);
    }
}

#[test]
fn indices_parse() {
    let s = bytes("17");
    assert_eq!(parse_index(&s, 0, 2), Some(17));
    let bad = bytes("-1");
    assert_eq!(parse_index(&bad, 0, 2), None);
    assert_eq!(parse_index(&s, 0, 0), None);
}

#[test]
fn records_parse() {
    let v = bytes("v 1 2.5 -3");
    assert_eq!(
        parse_record(&v, 0, v.len()),
        Some(GeometryRecord::Vertex(v3(SCALE, 5 * SCALE / 2, -3 * SCALE)))
    );
    let w = bytes("v 1e-3 +2 2.5E2");
    assert_eq!(
        parse_record(&w, 0, w.len()),
        Some(GeometryRecord::Vertex(v3(1048, 2 * SCALE, 250 * SCALE)))
    );
    let f = bytes("f 1 2 3");
    assert_eq!(parse_record(&f, 0, f.len()), Some(GeometryRecord::Face(1, 2, 3)));
    let short = bytes("f 1 2");
    assert_eq!(parse_record(&short, 0, short.len()), None);
    let junk = bytes("v 1 2 x");
    assert_eq!(parse_record(&junk, 0, junk.len()), None);
}

#[test]
fn load_object_builds_mesh_with_floor() {
    let text = bytes("v 1 0 0\nv 0 1 0\nv 0 0 1\nf 1 2 3");
    let mesh = load_object(&text).unwrap();
    assert_eq!(
        mesh,
        vec![
            Triangle::new(v3(0, SCALE, 0), v3(SCALE, 0, 0), v3(0, 0, SCALE)),
            floor_triangle(),
        ]
    );
    let parsed = parse_geometry(&text).unwrap();
    assert_eq!(parsed.len(), 4);
}

#[test]
fn load_object_skips_blank_lines() {
    assert_eq!(load_object(&bytes("v 1 0 0\n")).unwrap(), vec![floor_triangle()]);
    let p = v3(0, SCALE, 0);
    assert_eq!(
        load_object(&bytes("v 1 0 0\n\nf 1 1 1")).unwrap(),
        vec![Triangle::new(p, p, p), floor_triangle()]
    );
    assert_eq!(load_object(&bytes("")).unwrap(), vec![floor_triangle()]);
}

#[test]
fn load_object_reports_errors() {
    assert_eq!(load_object(&bytes("v 1 0 0\nx\nf 1 1 1")), Err(LoadError::MalformedLine(1)));
    assert_eq!(load_object(&bytes("v 1 0 0\n\nf 1 1")), Err(LoadError::MalformedLine(2)));
    assert_eq!(
        load_object(&bytes("v 1 0 0\nf 1 1 2")),
        Err(LoadError::Mesh(MeshError::UndeclaredVertex(1)))
    );
    assert_eq!(
        load_object(&bytes("v 5000 0 0")),
        Err(LoadError::Mesh(MeshError::CoordinateOutOfRange(0)))
    );
}
