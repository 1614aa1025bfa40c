use schematic_diff::mesh::{
    color_source, cube, sample_atlas, texel_passes, triangles, Fragment, Target, FARTHEST,
};

fn solid(depth: f32, channel: u8) -> Fragment {
    Fragment { depth: depth.to_bits(), lit: [channel; 3], alpha: None, blend: false }
}

fn glass(depth: f32, channel: u8, alpha: u8) -> Fragment {
    Fragment { depth: depth.to_bits(), lit: [channel; 3], alpha: Some(alpha), blend: true }
}

#[test]
fn the_nearer_fragment_stays() {
    let mut one = Target::new(2, 1);
    for fragment in [solid(2.0, 1), solid(3.0, 2), solid(1.0, 3)] {
        one.draw(0, 0, &fragment);
    }
    let mut other = Target::new(2, 1);
    for fragment in [solid(1.0, 3), solid(3.0, 2), solid(2.0, 1)] {
        other.draw(0, 0, &fragment);
    }
    assert_eq!(one.under(0, 0), [3, 3, 3, 255]);
    assert_eq!(other.under(0, 0), [3, 3, 3, 255]);
    assert_eq!(one.under(1, 0), [0; 4]);
    assert!(one.is_nearer(0, 0, 0.5f32.to_bits()));
    assert!(!one.is_nearer(0, 0, 1.0f32.to_bits()));
}

#[test]
fn depths_are_ordered_as_their_bits() {
    assert_eq!(f32::INFINITY.to_bits(), FARTHEST);
    let depths = [f32::MIN_POSITIVE, 0.05, 0.1, 1.0, 1.5, 1e9, f32::MAX, f32::INFINITY];
    for pair in depths.windows(2) {
        assert!(pair[0].to_bits() < pair[1].to_bits());
    }
}

#[test]
fn a_blended_fragment_does_not_occlude() {
    let mut target = Target::new(1, 1);
    target.draw(0, 0, &glass(1.0, 200, 128));
    assert_eq!(target.under(0, 0), [200, 200, 200, 128]);
    assert!(target.is_nearer(0, 0, f32::MAX.to_bits()));
    target.draw(0, 0, &solid(2.0, 50));
    assert_eq!(target.under(0, 0), [50, 50, 50, 255]);
    target.draw(0, 0, &glass(3.0, 200, 128));
    assert_eq!(target.under(0, 0), [50, 50, 50, 255]);
}

#[test]
fn blending_is_the_weighted_sum_in_single_precision() {
    for alpha in 1..=255u8 {
        let weight = f32::from(alpha) / 255.0;
        for under in (0..=255u8).step_by(5) {
            for over in (0..=255u8).step_by(3) {
                let mut target = Target::new(1, 1);
                target.draw(0, 0, &solid(2.0, under));
                target.draw(0, 0, &glass(1.0, over, alpha));
                let mix = |under: u8, over: u8| {
                    let sum = f32::from(under) * (1.0 - weight) + f32::from(over) * weight;
                    sum.clamp(0.0, 255.0) as u8
                };
                let expected = mix(under, over);
                assert_eq!(
                    target.under(0, 0),
                    [expected, expected, expected, mix(255, 255)],
                    "{under} {over} {alpha}"
                );
            }
        }
    }
}

#[test]
fn untouched_pixels_stay_clear() {
    let mut target = Target::new(2, 2);
    target.draw(1, 0, &solid(1.0, 9));
    target.draw(0, 1, &glass(1.0, 3, 0));
    let canvas = target.into_canvas();
    assert_eq!(canvas.get(1, 0), [9, 9, 9, 255]);
    assert_eq!(canvas.get(0, 1), [0; 4]);
    assert_eq!(canvas.get(0, 0), [0; 4]);
}

#[test]
fn a_see_through_texel_is_discarded_by_the_alpha_test() {
    let mut target = Target::new(1, 1);
    let cut = Fragment { alpha: Some(127), ..solid(1.0, 9) };
    target.draw(0, 0, &cut);
    assert_eq!(target.under(0, 0), [0; 4]);
    let kept = Fragment { alpha: Some(128), ..solid(1.0, 9) };
    target.draw(0, 0, &kept);
    assert_eq!(target.under(0, 0), [9, 9, 9, 255]);
}

#[test]
fn texels_pass_by_their_opacity() {
    assert!(texel_passes(128, false));
    assert!(!texel_passes(127, false));
    assert!(texel_passes(1, true));
    assert!(!texel_passes(0, true));
}

#[test]
fn triangles_without_corners_are_passed_over() {
    assert_eq!(triangles(&vec![0, 1, 2, 3, 0, 1, 2, 1, 0, 9], 3), vec![(0, 1, 2), (2, 1, 0)]);
    let kept = triangles(&vec![0, 1, 2, 2, 1, 0], 3);
    assert_eq!(triangles(&vec![0, 1, 2, 3, 0, 1, 2, 1, 0, 9], 3), kept);
    assert!(triangles(&vec![0, 1], 3).is_empty());
    assert!(triangles(&vec![0, 0, 0], 0).is_empty());
}

#[test]
fn a_vertex_without_a_colour_has_none() {
    assert_eq!(color_source(2, 3), Some(2));
    assert_eq!(color_source(3, 3), None);
    assert_eq!(color_source(u32::MAX, 0), None);
}

#[test]
fn a_cube_has_two_triangles_on_each_face() {
    let triangles = cube();
    assert_eq!(triangles.len(), 12);
    assert_eq!(
        triangles[0],
        ((true, false, false), (true, true, false), (true, true, true))
    );
    assert_eq!(
        triangles[11],
        ((false, false, false), (true, true, false), (true, false, false))
    );
    for (i, (a, b, c)) in triangles.iter().enumerate() {
        let face = i / 2;
        for corner in [a, b, c] {
            let along = [corner.0, corner.1, corner.2][face % 3];
            assert_eq!(along, face < 3);
        }
    }
}

#[test]
fn atlases_are_sampled_within_their_bounds() {
    let pixels: Vec<u8> = (0..16).collect();
    assert_eq!(sample_atlas(&pixels, 2, 2, 1, 0), [4, 5, 6, 7]);
    assert_eq!(sample_atlas(&pixels, 2, 2, 9, 9), [12, 13, 14, 15]);
    assert_eq!(sample_atlas(&pixels, 0, 2, 0, 0), [255; 4]);
    assert_eq!(sample_atlas(&pixels[..15].to_vec(), 2, 2, 1, 1), [255; 4]);
    assert_eq!(sample_atlas(&pixels, u32::MAX, u32::MAX, u32::MAX, u32::MAX), [255; 4]);
}
