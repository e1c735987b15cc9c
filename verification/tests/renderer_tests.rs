use tinyrender::geometry::{Vec2, Vec3, FIXED_ONE};
use tinyrender::model::{FaceIndex, Model};
use tinyrender::renderer::{OptimizationLevel, RenderError, Renderer};
use tinyrender::tgaimage::{Format, TGAColor, TGAImage};

fn touched(renderer: &Renderer) -> Vec<(i32, i32)> {
    let mut out = Vec::new();
    for y in 0..renderer.height {
        for x in 0..renderer.width {
            let c = renderer.image.get(x, y).unwrap();
            if c.raw[0] != 0 || c.raw[1] != 0 || c.raw[2] != 0 {
                out.push((x, y));
            }
        }
    }
    out
}

fn white_texture() -> TGAImage {
    let mut tex = TGAImage::new(2, 2, Format::RGBA);
    for y in 0..2 {
        for x in 0..2 {
            tex.set(x, y, &TGAColor::rgba(255, 255, 255, 255));
        }
    }
    tex
}

fn fresh_zbuffer(w: usize, h: usize) -> Vec<Vec<i64>> {
    vec![vec![i64::MIN; h]; w]
}

#[test]
fn test_draw_line() {
    let width = 10;
    let height = 5;
    let c = &TGAColor::rgba(128, 1, 255, 255);

    // What each strategy touches for the line (0,0)-(8,5): the endpoints
    // transpose (the line is steep), and the parametric strategy truncates
    // where the error strategies round, so it sits one pixel lower on the
    // odd steps.
    let parametric = [(0, 0), (1, 0), (2, 1), (3, 1), (4, 2), (5, 3), (6, 3), (7, 4)];
    let error_driven = [(0, 0), (1, 1), (2, 1), (3, 2), (4, 2), (5, 3), (6, 4), (7, 4)];

    let cases: [(OptimizationLevel, &[(i32, i32)]); 3] = [
        (OptimizationLevel::Level0, &parametric),
        (OptimizationLevel::Level1, &error_driven),
        (OptimizationLevel::Level2, &error_driven),
    ];
    let mut buffers: Vec<Vec<u8>> = Vec::new();
    for (optimization_level, expected) in cases {
        let mut renderer = Renderer::new(width, height);
        renderer.draw_line(
            Vec2 { x: 0, y: 0 },
            Vec2 { x: 8, y: 5 },
            c,
            optimization_level,
        );

        let mut expected_image = TGAImage::new(width, height, Format::RGB);
        for &(x, y) in expected {
            expected_image.set(x, y, c);
        }
        assert_eq!(renderer.image.data, expected_image.data);
        buffers.push(renderer.image.data.clone());
    }
    // The two accumulated-error strategies agree pixel for pixel.
    assert_eq!(buffers[1], buffers[2]);
}

#[test]
fn test_draw_line_single_point() {
    let c = &TGAColor::rgba(9, 9, 9, 255);
    for level in [
        OptimizationLevel::Level0,
        OptimizationLevel::Level1,
        OptimizationLevel::Level2,
    ] {
        let mut renderer = Renderer::new(4, 4);
        renderer.draw_line(Vec2 { x: 2, y: 1 }, Vec2 { x: 2, y: 1 }, c, level);
        assert_eq!(touched(&renderer), vec![(2, 1)]);
    }
}

#[test]
fn test_triangle_coverage() {
    let mut renderer = Renderer::new(200, 200);
    let tex = white_texture();
    let mut zbuffer = fresh_zbuffer(200, 200);
    renderer
        .draw_triangle(
            Vec3 { x: 10, y: 70, z: 0 },
            Vec3 { x: 50, y: 160, z: 0 },
            Vec3 { x: 70, y: 80, z: 0 },
            Vec2 { x: 0, y: 0 },
            Vec2 { x: 0, y: 0 },
            Vec2 { x: 0, y: 0 },
            &tex,
            FIXED_ONE,
            &mut zbuffer,
        )
        .unwrap();
    let pixels = touched(&renderer);
    assert!(!pixels.is_empty());

    // Every touched pixel lies in the vertices' bounding box.
    for &(x, y) in &pixels {
        assert!((10..=70).contains(&x));
        assert!((70..=160).contains(&y));
    }

    // The filled set is 4-connected.
    let set: std::collections::HashSet<(i32, i32)> = pixels.iter().copied().collect();
    let mut seen = std::collections::HashSet::new();
    let mut queue = vec![pixels[0]];
    seen.insert(pixels[0]);
    while let Some((x, y)) = queue.pop() {
        for (nx, ny) in [(x + 1, y), (x - 1, y), (x, y + 1), (x, y - 1)] {
            if set.contains(&(nx, ny)) && seen.insert((nx, ny)) {
                queue.push((nx, ny));
            }
        }
    }
    assert_eq!(seen.len(), set.len());
}

#[test]
fn test_degenerate_triangle_draws_nothing() {
    let mut renderer = Renderer::new(50, 50);
    let tex = white_texture();
    let mut zbuffer = fresh_zbuffer(50, 50);
    let r = renderer.draw_triangle(
        Vec3 { x: 5, y: 20, z: 0 },
        Vec3 { x: 25, y: 20, z: 0 },
        Vec3 { x: 40, y: 20, z: 0 },
        Vec2 { x: 0, y: 0 },
        Vec2 { x: 0, y: 0 },
        Vec2 { x: 0, y: 0 },
        &tex,
        FIXED_ONE,
        &mut zbuffer,
    );
    assert!(r.is_ok());
    assert!(touched(&renderer).is_empty());
}

#[test]
fn test_zbuffer_nearest_wins() {
    // Three coincident triangles with distinct depths and distinct shades:
    // whatever the draw order, the numerically largest depth keeps the pixel.
    let t = |z: i64| {
        (
            Vec3 { x: 0, y: 0, z },
            Vec3 { x: 30, y: 0, z },
            Vec3 { x: 0, y: 30, z },
        )
    };
    let cases: [[(i64, i64); 3]; 2] = [
        [(10, FIXED_ONE), (5, FIXED_ONE / 2), (7, FIXED_ONE / 4)],
        [(5, FIXED_ONE / 2), (7, FIXED_ONE / 4), (10, FIXED_ONE)],
    ];
    for order in cases {
        let mut renderer = Renderer::new(40, 40);
        let tex = white_texture();
        let mut zbuffer = fresh_zbuffer(40, 40);
        for (z, intensity) in order {
            let (a, b, c) = t(z);
            renderer
                .draw_triangle(
                    a,
                    b,
                    c,
                    Vec2 { x: 0, y: 0 },
                    Vec2 { x: 0, y: 0 },
                    Vec2 { x: 0, y: 0 },
                    &tex,
                    intensity,
                    &mut zbuffer,
                )
                .unwrap();
        }
        // Depth 10 was drawn with full intensity: pure white wins.
        let c = renderer.image.get(5, 5).unwrap();
        assert_eq!(&c.raw[..3], &[255, 255, 255]);
        assert_eq!(zbuffer[5][5], 10);
    }
}

#[test]
fn test_zbuffer_only_increases() {
    let mut renderer = Renderer::new(40, 40);
    let tex = white_texture();
    let mut zbuffer = fresh_zbuffer(40, 40);
    renderer
        .draw_triangle(
            Vec3 { x: 0, y: 0, z: 9 },
            Vec3 { x: 30, y: 0, z: 9 },
            Vec3 { x: 0, y: 30, z: 9 },
            Vec2 { x: 0, y: 0 },
            Vec2 { x: 0, y: 0 },
            Vec2 { x: 0, y: 0 },
            &tex,
            FIXED_ONE,
            &mut zbuffer,
        )
        .unwrap();
    let snapshot: Vec<Vec<i64>> = zbuffer.clone();
    renderer
        .draw_triangle(
            Vec3 { x: 0, y: 0, z: 3 },
            Vec3 { x: 30, y: 0, z: 3 },
            Vec3 { x: 0, y: 30, z: 3 },
            Vec2 { x: 0, y: 0 },
            Vec2 { x: 0, y: 0 },
            Vec2 { x: 0, y: 0 },
            &tex,
            FIXED_ONE / 2,
            &mut zbuffer,
        )
        .unwrap();
    for x in 0..40 {
        for y in 0..40 {
            assert!(zbuffer[x][y] >= snapshot[x][y]);
        }
    }
}

#[test]
fn test_texture_out_of_range_is_fatal() {
    let mut renderer = Renderer::new(40, 40);
    let tex = white_texture();
    let mut zbuffer = fresh_zbuffer(40, 40);
    // A texture coordinate of two in fixed point samples far outside the
    // two-pixel texture.
    let r = renderer.draw_triangle(
        Vec3 { x: 0, y: 0, z: 0 },
        Vec3 { x: 30, y: 0, z: 0 },
        Vec3 { x: 0, y: 30, z: 0 },
        Vec2 { x: 2 * FIXED_ONE, y: 0 },
        Vec2 { x: 2 * FIXED_ONE, y: 0 },
        Vec2 { x: 2 * FIXED_ONE, y: 0 },
        &tex,
        FIXED_ONE,
        &mut zbuffer,
    );
    match r {
        Err(RenderError::TextureNotFound { u, .. }) => {
            assert_eq!(u, 2 * FIXED_ONE);
        },
        Ok(()) => panic!("sampling outside the texture must fail"),
    }
}

fn square_model() -> Model {
    // Two triangles forming a square facing the camera (normals toward -z).
    let verts = vec![
        Vec3 { x: -FIXED_ONE, y: -FIXED_ONE, z: 0 },
        Vec3 { x: FIXED_ONE, y: -FIXED_ONE, z: 0 },
        Vec3 { x: FIXED_ONE, y: FIXED_ONE, z: 0 },
        Vec3 { x: -FIXED_ONE, y: FIXED_ONE, z: 0 },
    ];
    let uvs = vec![Vec2 { x: 0, y: 0 }];
    let normals = vec![Vec3 { x: 0, y: 0, z: -FIXED_ONE }];
    let fi = |v: usize| FaceIndex { vertex: v, uv: 0, normal: 0 };
    let faces = vec![[fi(0), fi(1), fi(2)], [fi(0), fi(2), fi(3)]];
    Model::new(verts, uvs, normals, faces).unwrap()
}

#[test]
fn test_render_model_fills_canvas() {
    let mut renderer = Renderer::new(20, 20);
    let tex = white_texture();
    let model = square_model();
    renderer.render_model(&model, &tex).unwrap();
    // The square spans the whole canvas; its fill convention leaves at most
    // the outermost edge pixels dark.
    let c = renderer.image.get(10, 10).unwrap();
    assert_eq!(&c.raw[..3], &[255, 255, 255]);
    assert!(!touched(&renderer).is_empty());
}

#[test]
fn test_render_model_culls_backfaces() {
    // The same square with every face wound the other way is lit from
    // behind: nothing is drawn.
    let verts = vec![
        Vec3 { x: -FIXED_ONE, y: -FIXED_ONE, z: 0 },
        Vec3 { x: FIXED_ONE, y: -FIXED_ONE, z: 0 },
        Vec3 { x: FIXED_ONE, y: FIXED_ONE, z: 0 },
        Vec3 { x: -FIXED_ONE, y: FIXED_ONE, z: 0 },
    ];
    let uvs = vec![Vec2 { x: 0, y: 0 }];
    let normals = vec![Vec3 { x: 0, y: 0, z: FIXED_ONE }];
    let fi = |v: usize| FaceIndex { vertex: v, uv: 0, normal: 0 };
    let faces = vec![[fi(0), fi(2), fi(1)], [fi(0), fi(3), fi(2)]];
    let model = Model::new(verts, uvs, normals, faces).unwrap();
    let mut renderer = Renderer::new(20, 20);
    let tex = white_texture();
    renderer.render_model(&model, &tex).unwrap();
    assert!(touched(&renderer).is_empty());
}

#[test]
fn test_save_tga_image_round_trip() {
    let mut renderer = Renderer::new(8, 8);
    let c = &TGAColor::rgba(200, 100, 50, 255);
    renderer.draw_line(
        Vec2 { x: 0, y: 0 },
        Vec2 { x: 7, y: 3 },
        c,
        OptimizationLevel::Level2,
    );
    let before_flip = renderer.image.data.clone();
    let bytes = renderer.save_tga_image();
    let mut back = TGAImage::new(1, 1, Format::Grayscale);
    back.read_tga_file(&bytes).unwrap();
    assert_eq!(back.data, renderer.image.data);
    // Saving flipped the image once; flipping back restores the drawing.
    renderer.image.flip_vertically();
    assert_eq!(renderer.image.data, before_flip);
}

#[test]
fn test_model_validation() {
    let verts = vec![Vec3 { x: 0, y: 0, z: 0 }];
    let uvs = vec![Vec2 { x: 0, y: 0 }];
    let normals = vec![Vec3 { x: 0, y: 0, z: 0 }];
    let fi = |v: usize| FaceIndex { vertex: v, uv: 0, normal: 0 };

    // An out-of-range vertex index is rejected.
    let bad = Model::new(
        verts.clone(),
        uvs.clone(),
        normals.clone(),
        vec![[fi(0), fi(1), fi(0)]],
    );
    assert!(bad.is_none());

    // An out-of-range coordinate is rejected.
    let bad = Model::new(
        vec![Vec3 { x: 2 * FIXED_ONE, y: 0, z: 0 }],
        uvs.clone(),
        normals.clone(),
        vec![],
    );
    assert!(bad.is_none());

    let good = Model::new(verts, uvs, normals, vec![[fi(0), fi(0), fi(0)]]).unwrap();
    assert_eq!(good.nverts(), 1);
    assert_eq!(good.nfaces(), 1);
    assert_eq!(good.face(0)[1].vertex, 0);
}

#[test]
fn test_geometry_operations() {
    let a = Vec3 { x: 1, y: 2, z: 3 };
    let b = Vec3 { x: 4, y: 5, z: 6 };
    assert_eq!(a.dot(b), 32);
    let c = a.cross(b);
    assert_eq!((c.x, c.y, c.z), (-3, 6, -3));
    let s = a.add(b).sub(Vec3 { x: 1, y: 1, z: 1 }).mul(2);
    assert_eq!((s.x, s.y, s.z), (8, 12, 16));

    // Fixed point to whole units truncates toward zero.
    let v = Vec3 { x: 3 * FIXED_ONE / 2, y: -3 * FIXED_ONE / 2, z: FIXED_ONE };
    let w = v.to_i();
    assert_eq!((w.x, w.y, w.z), (1, -1, 1));

    let p = Vec2 { x: 3, y: 4 }.add(Vec2 { x: 1, y: 1 }).mul(3).sub(Vec2 { x: 2, y: 0 });
    assert_eq!((p.x, p.y), (10, 15));

    assert_eq!(tinyrender::geometry::isqrt(0), 0);
    assert_eq!(tinyrender::geometry::isqrt(15), 3);
    assert_eq!(tinyrender::geometry::isqrt(16), 4);
    assert_eq!(tinyrender::geometry::div_floor(-7, 2), -4);
    assert_eq!(tinyrender::geometry::div_floor(7, 2), 3);
}
