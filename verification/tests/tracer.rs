use raytracer::lighting::Light;
use raytracer::scene::nearest;
use raytracer::scene::Intersection;
use raytracer::scene::Scene;

/// The key of a distance: for a non-negative number its bit pattern.
fn key(distance: f32) -> u32 {
    assert!(distance >= 0.0);
    distance.to_bits()
}

#[test]
fn new_scene_keeps_its_settings() {
    let scene = Scene::new(1920, 1080, 100);
    assert_eq!(scene.width, 1920);
    assert_eq!(scene.height, 1080);
    assert_eq!(scene.samples, 100);
    assert_eq!(scene.tracing_depth, 3);
}

#[test]
fn landscape_is_wider_than_high() {
    assert!(Scene::new(4, 3, 1).is_landscape());
    assert!(!Scene::new(3, 3, 1).is_landscape());
    assert!(!Scene::new(3, 4, 1).is_landscape());
}

#[test]
fn trace_picks_the_nearest_hit() {
    let scene = Scene::new(4, 3, 1);
    let hits = vec![Some(key(9.0)), None, Some(key(4.0)), Some(key(6.5))];
    assert_eq!(scene.trace(&hits, 0), Some(Intersection::new(key(4.0), 2)));
}

#[test]
fn trace_orders_keys_as_distances() {
    let scene = Scene::new(4, 3, 1);
    let hits = vec![Some(key(1.0e-3)), Some(key(1.0e-6)), Some(key(2.0e10)), Some(key(0.5))];
    let found = scene.trace(&hits, 2).unwrap();
    assert_eq!(found.elem, 1);
    assert_eq!(f32::from_bits(found.dist), 1.0e-6);
}

#[test]
fn trace_takes_the_first_of_equal_hits() {
    let scene = Scene::new(4, 3, 1);
    let hits = vec![Some(7), Some(5), None, Some(5), Some(5)];
    assert_eq!(scene.trace(&hits, 1), Some(Intersection { dist: 5, elem: 1 }));
}

#[test]
fn trace_misses_when_nothing_is_hit() {
    let scene = Scene::new(4, 3, 1);
    assert_eq!(scene.trace(&vec![None, None, None], 0), None);
    assert_eq!(scene.trace(&Vec::new(), 0), None);
}

#[test]
fn trace_takes_a_hit_at_distance_zero() {
    let scene = Scene::new(4, 3, 1);
    let hits = vec![Some(key(3.0)), Some(key(0.0))];
    assert_eq!(scene.trace(&hits, 0), Some(Intersection::new(0, 1)));
}

#[test]
fn trace_stops_at_the_depth_limit() {
    let scene = Scene::new(4, 3, 1);
    let hits = vec![Some(key(1.0))];
    assert!(scene.trace(&hits, 0).is_some());
    assert!(scene.trace(&hits, 2).is_some());
    assert_eq!(scene.trace(&hits, 3), None);
    assert_eq!(scene.trace(&hits, 4), None);
    assert_eq!(scene.trace(&hits, u32::MAX), None);
}

#[test]
fn trace_with_depth_zero_never_hits() {
    let mut scene = Scene::new(4, 3, 1);
    scene.tracing_depth = 0;
    assert_eq!(scene.trace(&vec![Some(1)], 0), None);
}

/// Two mirrors that face each other: every ray between them hits the other
/// mirror. The chain of reflections ends at the depth limit.
#[test]
fn facing_mirrors_end_at_the_depth_limit() {
    for limit in 0..6u32 {
        let mut scene = Scene::new(4, 3, 1);
        scene.tracing_depth = limit;
        let mut depth = 0;
        let mut hits_seen = 0;
        let mut traces = 0;
        loop {
            // The ray leaves mirror `depth % 2` and meets the other one.
            let hits = if depth % 2 == 0 {
                vec![None, Some(key(2.0))]
            } else {
                vec![Some(key(2.0)), None]
            };
            traces += 1;
            match scene.trace(&hits, depth) {
                Some(hit) => {
                    assert_eq!(hit.elem as u32, (depth + 1) % 2);
                    hits_seen += 1;
                    depth += 1;
                }
                None => break,
            }
            assert!(traces <= limit, "the chain went past the depth limit");
        }
        assert_eq!(hits_seen, limit);
        assert_eq!(depth, limit);
        assert_eq!(traces, limit + 1);
    }
}

#[test]
fn light_at_a_point_is_hidden_by_a_nearer_surface() {
    let to_light = key(5.0);
    let occluder = Some(Intersection::new(key(2.0), 0));
    assert!(!Light::Spherical.visible(&occluder, to_light));
    assert!(Light::Spherical.visible(&None, to_light));
}

/// A sphere between a shaded point and a light at a point hides the light;
/// without the sphere the light is seen.
#[test]
fn occluder_between_point_and_light_blocks_it() {
    let scene = Scene::new(4, 3, 1);
    let to_light = key(8.0);
    // Surface 0 is the shaded plane, surface 1 the sphere in between.
    let with_occluder = vec![None, Some(key(3.0))];
    let shadow = scene.trace(&with_occluder, 1);
    assert!(!Light::Spherical.visible(&shadow, to_light));
    let without = vec![None];
    let shadow = scene.trace(&without, 1);
    assert!(Light::Spherical.visible(&shadow, to_light));
}

#[test]
fn light_at_a_point_is_seen_past_a_farther_surface() {
    let to_light = key(5.0);
    let behind = Some(Intersection::new(key(5.5), 3));
    assert!(Light::Spherical.visible(&behind, to_light));
}

#[test]
fn light_at_a_point_is_hidden_by_a_surface_at_its_own_distance() {
    let to_light = key(5.0);
    let at_light = Some(Intersection::new(key(5.0), 3));
    assert!(!Light::Spherical.visible(&at_light, to_light));
}

#[test]
fn global_light_is_hidden_by_any_surface() {
    let far = Some(Intersection::new(key(1.0e30), 0));
    assert!(!Light::Global.visible(&far, key(1.0)));
    assert!(!Light::Global.visible(&far, u32::MAX));
    assert!(Light::Global.visible(&None, 0));
}

#[test]
fn shadow_ray_at_the_depth_limit_sees_the_light() {
    let scene = Scene::new(4, 3, 1);
    let hits = vec![Some(key(1.0))];
    // The point was hit at the last level; its shadow ray is one level deeper.
    let shadow = scene.trace(&hits, 2 + 1);
    assert!(Light::Global.visible(&shadow, 0));
    assert!(Light::Spherical.visible(&shadow, key(4.0)));
}

#[test]
fn nearest_of_no_candidates_is_none() {
    assert_eq!(nearest(&[]), None);
    assert_eq!(nearest(&[None, None]), None);
}

#[test]
fn nearest_of_one_candidate_is_that_one() {
    assert_eq!(nearest(&[None, Some(key(2.5))]), Some(Intersection::new(key(2.5), 1)));
    assert_eq!(nearest(&[Some(0)]), Some(Intersection::new(0, 0)));
}

/// The candidate hits of a ray with a sphere: the two distances along the ray
/// at which it crosses the sphere, each kept only where it lies ahead. The ray
/// starts at `origin` and runs along the unit vector `direction`.
fn sphere_candidates(
    center: [f32; 3],
    radius: f32,
    origin: [f32; 3],
    direction: [f32; 3],
) -> Vec<Option<u32>> {
    let dot = |a: [f32; 3], b: [f32; 3]| a[0] * b[0] + a[1] * b[1] + a[2] * b[2];
    let to_center = [center[0] - origin[0], center[1] - origin[1], center[2] - origin[2]];
    let along = dot(to_center, direction);
    let miss_squared = dot(to_center, to_center) - along * along;
    if miss_squared > radius * radius {
        return Vec::new();
    }
    let half_chord = (radius * radius - miss_squared).sqrt();
    let ahead = |root: f32| if root >= 0.0 { Some(key(root)) } else { None };
    vec![ahead(along - half_chord), ahead(along + half_chord)]
}

/// A sphere of radius 1 around (0, 0, 5), seen from the origin along (0, 0, 1),
/// is hit at its near side, 4 away.
#[test]
fn sphere_ahead_is_hit_at_its_near_side() {
    let candidates = sphere_candidates([0.0, 0.0, 5.0], 1.0, [0.0; 3], [0.0, 0.0, 1.0]);
    let found = nearest(&candidates).unwrap();
    assert!((f32::from_bits(found.dist) - 4.0).abs() <= 1e-5);
    assert_eq!(found.elem, 0);
}

/// The same sphere is missed by a ray that looks away from it: both crossings
/// lie behind the ray.
#[test]
fn sphere_behind_is_missed() {
    let candidates = sphere_candidates([0.0, 0.0, 5.0], 1.0, [0.0; 3], [0.0, 0.0, -1.0]);
    assert_eq!(candidates, vec![None, None]);
    assert_eq!(nearest(&candidates), None);
}

/// From inside a sphere the crossing ahead counts, not the one behind.
#[test]
fn sphere_around_the_ray_is_hit_from_inside() {
    let candidates = sphere_candidates([0.0, 0.0, 1.0], 2.0, [0.0; 3], [0.0, 0.0, 1.0]);
    let found = nearest(&candidates).unwrap();
    assert!((f32::from_bits(found.dist) - 3.0).abs() <= 1e-5);
    assert_eq!(found.elem, 1);
}

/// A plane 5 away behind a sphere whose near side is 4 away: the sphere is
/// what the ray meets.
#[test]
fn trace_meets_the_sphere_before_the_plane() {
    let scene = Scene::new(4, 3, 1);
    let sphere = nearest(&sphere_candidates([0.0, 0.0, 5.0], 1.0, [0.0; 3], [0.0, 0.0, 1.0]));
    let plane = Some(key(5.0));
    let hits = vec![plane, sphere.map(|hit| hit.dist)];
    let found = scene.trace(&hits, 0).unwrap();
    assert_eq!(found.elem, 1);
    assert!((f32::from_bits(found.dist) - 4.0).abs() <= 1e-5);
    let alone = scene.trace(&[plane], 0).unwrap();
    assert_eq!(f32::from_bits(alone.dist), 5.0);
}

#[test]
fn nearest_does_not_look_at_the_depth() {
    let mut scene = Scene::new(4, 3, 1);
    scene.tracing_depth = 0;
    let hits = [Some(9), Some(3)];
    assert_eq!(scene.trace(&hits, 0), None);
    assert_eq!(nearest(&hits), Some(Intersection::new(3, 1)));
}

#[test]
fn within_depth_is_below_the_limit() {
    let scene = Scene::new(4, 3, 1);
    assert!(scene.within_depth(0));
    assert!(scene.within_depth(2));
    assert!(!scene.within_depth(3));
    assert!(!scene.within_depth(u32::MAX));
}

#[test]
fn nearest_distance_does_not_depend_on_the_listing() {
    let listed = [Some(key(7.0)), None, Some(key(2.0)), Some(key(9.5)), Some(key(2.0))];
    let mut other = listed;
    other.reverse();
    let mut third = listed;
    third.swap(0, 2);
    third.swap(1, 4);
    let found = nearest(&listed).unwrap();
    assert_eq!(found, Intersection::new(key(2.0), 2));
    assert_eq!(nearest(&other).unwrap().dist, found.dist);
    assert_eq!(nearest(&third).unwrap().dist, found.dist);
    assert_eq!(nearest(&other).unwrap().elem, 0);
}

#[test]
fn sphere_test_intersect() {
    let along = 1.0 / (3.0 as f32).sqrt();
    let candidates =
        sphere_candidates([1.0, 1.0, 1.0], 1.0, [0.0, 0.0, 0.0], [along, along, along]);
    let result = nearest(&candidates).map(|hit| f32::from_bits(hit.dist));
    assert!(result.unwrap() - (3.0 as f32).sqrt() - 1.0 <= 1e-6);
    assert!((result.unwrap() - ((3.0 as f32).sqrt() - 1.0)).abs() <= 1e-5);
}

#[test]
fn sphere_test_near_miss() {
    let candidates = sphere_candidates([1.0, 1.0, 1.0], 1.0, [0.0, 0.0, 0.0], [0.0, 0.0, 1.0]);
    let result = nearest(&candidates);
    assert!(result.is_none());
}
