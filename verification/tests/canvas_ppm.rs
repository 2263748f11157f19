use raymath::canvas::Canvas;
use raymath::color::Color;
use raymath::scalar::Scalar;
use raymath::sim::Projectile;
use raymath::tuple::Tuple;

fn s(n: i32, d: i32) -> Scalar {
    Scalar::from_ratio(n, d)
}

fn si(n: i32) -> Scalar {
    Scalar::from_int(n)
}

#[test]
fn create_canvas() {
    let canvas = Canvas::new(100, 100);
    let black = Color::new_color(si(0), si(0), si(0));
    for y in 0..100 {
        for x in 0..100 {
            assert_eq!(canvas.get_pixel(x, y).equals(&black), true);
        }
    }
}

#[test]
fn set_pixel() {
    let mut canvas = Canvas::new(100, 100);
    let red = Color::new_color(si(1), si(0), si(0));
    canvas.set_pixel(3, 3, &red);
    let pixel = canvas.get_pixel(3, 3);
    assert_eq!(pixel.equals(&red), true);
}

#[test]
fn draw_projectile() {
    let mut canvas = Canvas::new(1000, 1000);
    let red = Color::new_color(si(1), si(0), si(0));

    let mut projectile = Projectile::new_projectile(
        Tuple::new_point(si(0), si(999), si(0)),
        Tuple::new_vector(si(3), si(-12), si(0)),
    );
    let gravity = Tuple::new_vector(si(0), s(1, 10), si(0));

    for _ in 0..250 {
        let x = projectile.position.x.floor();
        let y = projectile.position.y.floor();
        if x < 0 || y < 0 || x >= 1000 || y >= 1000 {
            break;
        }
        canvas.set_pixel(x as usize, y as usize, &red);
        projectile = projectile.step(&gravity).unwrap();
    }
    canvas.set_pixel(3, 3, &red);
    let bytes = canvas.ppm_bytes();
    assert!(bytes.starts_with(b"P3\n1000 1000\n255\n"));
}

#[test]
fn ppm_output_exact() {
    let mut canvas = Canvas::new(2, 1);
    canvas.set_pixel(0, 0, &Color::new_color(si(1), s(5, 10), si(0)));
    canvas.set_pixel(1, 0, &Color::new_color(s(-5, 10), s(15, 10), s(25, 100)));
    let bytes = canvas.ppm_bytes();
    assert_eq!(bytes, b"P3\n2 1\n255\n255 128 0 0 255 64 \n".to_vec());
}

#[test]
fn projectile_step_values() {
    let p = Projectile::new_projectile(
        Tuple::new_point(si(0), si(10), si(0)),
        Tuple::new_vector(si(3), si(-2), si(0)),
    );
    let gravity = Tuple::new_vector(si(0), s(-1, 10), si(0));
    let p2 = p.step(&gravity).unwrap();
    assert!(p2.position.equals(&Tuple::new_point(si(3), si(8), si(0))));
    assert!(p2.velocity.equals(&Tuple::new_vector(si(3), s(-21, 10), si(0))));
}
