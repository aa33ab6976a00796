use rand::{SeedableRng, StdRng};
use ray_tracer::render_buffer::RenderBufferI32;
use ray_tracer::renderable::{select_root, RenderList, RootChoice};
use ray_tracer::renderer::{color, render, RenderSettings};
use ray_tracer::sampling::{random_in_unit_sphere, HALF_UNIT};
use std::cell::RefCell;

// A small real-valued host around the library: vectors as arrays, one kind of
// primitive and one diffuse material.

type V = [f64; 3];

fn add(a: V, b: V) -> V {
    [a[0] + b[0], a[1] + b[1], a[2] + b[2]]
}

fn sub(a: V, b: V) -> V {
    [a[0] - b[0], a[1] - b[1], a[2] - b[2]]
}

fn scale(a: V, k: f64) -> V {
    [a[0] * k, a[1] * k, a[2] * k]
}

fn dot(a: V, b: V) -> f64 {
    a[0] * b[0] + a[1] * b[1] + a[2] * b[2]
}

#[derive(Clone, Copy)]
struct Ray {
    origin: V,
    dir: V,
}

#[derive(Clone, Copy)]
struct Sphere {
    center: V,
    radius: f64,
}

fn get_hit_time(sphere: &Sphere, ray: &Ray, time_min: f64, time_max: f64) -> f64 {
    let offset = sub(ray.origin, sphere.center);
    let a = dot(ray.dir, ray.dir);
    let b = 2.0 * dot(offset, ray.dir);
    let c = dot(offset, offset) - sphere.radius * sphere.radius;
    let discriminant = b * b - 4.0 * a * c;
    let positive = discriminant > 0.0;
    let root = if positive { discriminant.sqrt() } else { 0.0 };
    let near = (-b - root) / (2.0 * a);
    let far = (-b + root) / (2.0 * a);
    let in_range = |time: f64| time > time_min && time < time_max;
    match select_root(positive, in_range(near), in_range(far)) {
        RootChoice::Near => near,
        RootChoice::Far => far,
        RootChoice::Miss => time_min,
    }
}

fn nearest(scene: &RenderList<Sphere, V>, ray: &Ray) -> Option<(usize, f64)> {
    let found = scene.try_get_hit_record(f64::MAX, |sphere: &Sphere, closest: &f64| {
        let time = get_hit_time(sphere, ray, 0.001, *closest);
        if time > 0.001 {
            Some(time)
        } else {
            None
        }
    });
    found.map(|record| (record.index, record.time))
}

fn background(ray: &Ray) -> V {
    let unit_y = ray.dir[1] / dot(ray.dir, ray.dir).sqrt();
    let t = 0.5 * (unit_y + 1.0);
    add(scale([1.0, 1.0, 1.0], 1.0 - t), scale([0.5, 0.7, 1.0], t))
}

fn radiance(scene: &RenderList<Sphere, V>, ray: &Ray, rng: &RefCell<StdRng>) -> V {
    color(
        ray,
        0,
        &|ray: &Ray| nearest(scene, ray),
        &|ray: &Ray, hit: &(usize, f64)| {
            let package = scene.get_material_package(hit.0);
            let point = add(ray.origin, scale(ray.dir, hit.1));
            let normal = scale(sub(point, package.sphere.center), 1.0 / package.sphere.radius);
            let sample = loop {
                if let Some(p) = random_in_unit_sphere(&mut rng.borrow_mut(), 1000) {
                    let unit = HALF_UNIT as f64;
                    break [p.x() as f64 / unit, p.y() as f64 / unit, p.z() as f64 / unit];
                }
            };
            Some((*package.material, Ray { origin: point, dir: add(normal, sample) }))
        },
        &background,
        &|inner: V, attenuation: &V| {
            [inner[0] * attenuation[0], inner[1] * attenuation[1], inner[2] * attenuation[2]]
        },
        [0.0, 0.0, 0.0],
    )
}

fn camera_ray(u: f64, v: f64) -> Ray {
    let lower_left = [-2.0, -1.0, -1.0];
    let through = add(add(lower_left, scale([4.0, 0.0, 0.0], u)), scale([0.0, 2.0, 0.0], v));
    Ray { origin: [0.0, 0.0, 0.0], dir: through }
}

fn render_scene(scene: &RenderList<Sphere, V>, width: usize, height: usize, seed: usize) -> Vec<i32> {
    let words = [seed, 17, 19];
    let rng: RefCell<StdRng> = RefCell::new(SeedableRng::from_seed(&words[..]));
    let mut buffer = RenderBufferI32::new(width, height);
    let settings = RenderSettings { num_samples_per_pixel: 1 };
    render(
        &mut buffer,
        &settings,
        || [0.0, 0.0, 0.0],
        |sum: V, x: usize, y: usize| {
            let u = (x as f64) / (width as f64);
            let v = (y as f64) / (height as f64);
            add(sum, radiance(scene, &camera_ray(u, v), &rng))
        },
        |sum: V, samples: i32| {
            let c = scale(sum, 1.0 / (samples as f64));
            (
                (255.99 * c[0].sqrt()) as i32,
                (255.99 * c[1].sqrt()) as i32,
                (255.99 * c[2].sqrt()) as i32,
            )
        },
    );
    assert_eq!(buffer.check_complete(), Ok(()));
    buffer.buffer
}

fn single_sphere() -> RenderList<Sphere, V> {
    let mut scene = RenderList::new();
    scene.add_sphere(Sphere { center: [0.0, 0.0, -1.0], radius: 0.5 }, [0.8, 0.3, 0.3]);
    scene
}

#[test]
fn hit_point_lies_on_the_sphere() {
    let sphere = Sphere { center: [0.0, 0.0, -3.0], radius: 1.25 };
    let ray = Ray { origin: [0.0, 0.0, 0.0], dir: [0.0, 0.0, -1.0] };
    let time = get_hit_time(&sphere, &ray, 0.001, f64::MAX);
    assert!((time - 1.75).abs() < 1e-12);
    let point = add(ray.origin, scale(ray.dir, time));
    let offset = sub(point, sphere.center);
    assert!((dot(offset, offset).sqrt() - sphere.radius).abs() < 1e-6);
}

#[test]
fn ray_from_inside_leaves_through_the_far_root() {
    let sphere = Sphere { center: [0.0, 0.0, 0.0], radius: 2.0 };
    let ray = Ray { origin: [0.0, 0.0, 0.0], dir: [1.0, 0.0, 0.0] };
    let time = get_hit_time(&sphere, &ray, 0.001, f64::MAX);
    assert!((time - 2.0).abs() < 1e-12);
}

#[test]
fn tangent_ray_is_a_miss() {
    let sphere = Sphere { center: [0.0, 1.0, -2.0], radius: 1.0 };
    let ray = Ray { origin: [0.0, 0.0, 0.0], dir: [0.0, 0.0, -1.0] };
    assert_eq!(get_hit_time(&sphere, &ray, 0.001, f64::MAX), 0.001);
}

#[test]
fn hit_beyond_the_interval_is_a_miss() {
    let sphere = Sphere { center: [0.0, 0.0, -3.0], radius: 1.0 };
    let ray = Ray { origin: [0.0, 0.0, 0.0], dir: [0.0, 0.0, -1.0] };
    assert_eq!(get_hit_time(&sphere, &ray, 0.001, 1.5), 0.001);
    assert_eq!(get_hit_time(&sphere, &ray, 0.001, 2.5), 2.0);
    assert_eq!(get_hit_time(&sphere, &ray, 2.0, 5.0), 4.0);
}

#[test]
fn ray_aimed_away_takes_exactly_the_background() {
    let scene = single_sphere();
    let rng: RefCell<StdRng> = RefCell::new(SeedableRng::from_seed(&[1usize, 2][..]));
    let ray = Ray { origin: [0.0, 0.0, 0.0], dir: [0.0, 0.0, 1.0] };
    assert_eq!(nearest(&scene, &ray), None);
    assert_eq!(radiance(&scene, &ray, &rng), [0.75, 0.85, 1.0]);
}

#[test]
fn nearest_of_two_spheres_along_the_ray() {
    let mut scene: RenderList<Sphere, V> = RenderList::new();
    scene.add_sphere(Sphere { center: [0.0, 0.0, -5.0], radius: 1.0 }, [0.1, 0.1, 0.1]);
    scene.add_sphere(Sphere { center: [0.0, 0.0, -2.0], radius: 0.5 }, [0.2, 0.2, 0.2]);
    scene.add_sphere(Sphere { center: [0.0, 0.0, -9.0], radius: 1.0 }, [0.3, 0.3, 0.3]);
    let ray = Ray { origin: [0.0, 0.0, 0.0], dir: [0.0, 0.0, -1.0] };
    assert_eq!(nearest(&scene, &ray), Some((1, 1.5)));
}

#[test]
fn single_sphere_two_by_two_image() {
    let scene = single_sphere();
    let pixels = render_scene(&scene, 2, 2, 7);
    assert_eq!(pixels.len(), 12);
    // top row, left: the ray (-2, 0, -1) leaves the scene.
    assert_eq!(&pixels[0..3], &[221, 236, 255]);
    // bottom row: (-2, -1, -1) and (0, -1, -1) leave the scene.
    assert_eq!(&pixels[6..9], &[236, 244, 255]);
    assert_eq!(&pixels[9..12], &[246, 250, 255]);
    // top row, right: the ray (0, 0, -1) hits the sphere and scatters.
    for channel in &pixels[3..6] {
        assert!(0 <= *channel && *channel <= 255);
    }
    // the diffuse surface takes at most its albedo of the brightest sky.
    assert!(pixels[3] <= (255.99 * (0.8f64).sqrt()) as i32);
    assert!(pixels[4] <= (255.99 * (0.3f64).sqrt()) as i32);
    assert!(pixels[5] <= (255.99 * (0.3f64).sqrt()) as i32);
}

#[test]
fn equal_seeds_render_equal_images() {
    let scene = single_sphere();
    let first = render_scene(&scene, 8, 6, 123);
    let second = render_scene(&scene, 8, 6, 123);
    assert_eq!(first.len(), 8 * 6 * 3);
    assert_eq!(first, second);
    for channel in &first {
        assert!(0 <= *channel && *channel <= 255);
    }
}
