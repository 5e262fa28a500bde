//! Ticks of point masses that attract one another and bounce elastically.
use planets::body::Body;
use planets::simulation::App;

/// A point mass in the plane. Its radius is twice its mass.
#[derive(Clone, Copy, Debug, PartialEq)]
struct Planet {
    x: f64,
    y: f64,
    mass: f64,
    vec: [f64; 2],
}

impl Planet {
    fn radius(&self) -> f64 {
        2.0 * self.mass
    }

    fn distance(&self, b: &Planet) -> f64 {
        let (distance_x, distance_y) = (self.x - b.x, self.y - b.y);
        distance_x.hypot(distance_y)
    }
}

impl Body for Planet {
    fn influence(&self, b: &Self) -> Self {
        let x = b.x - self.x;
        let y = b.y - self.y;
        let resistance = x.hypot(y);
        let acceleration = b.mass / resistance.powf(2.0) / self.mass;
        let mut pulled = *self;
        pulled.vec[0] += acceleration * x / resistance;
        pulled.vec[1] += acceleration * y / resistance;
        pulled
    }

    fn collision(&self, b: &Self) -> bool {
        self.distance(b) <= self.radius() * 2.0 + b.radius() * 2.0
    }

    fn rebound(&self, other: &Self) -> (Self, Self) {
        let (mut a, mut b) = (*self, *other);
        let x = a.vec[0] - b.vec[0];
        let y = a.vec[1] - b.vec[1];
        a.vec[0] = (a.vec[0] * (a.mass - b.mass) + (2.0 * b.mass * b.vec[0])) / (a.mass + b.mass);
        a.vec[1] = (a.vec[1] * (a.mass - b.mass) + (2.0 * b.mass * b.vec[1])) / (a.mass + b.mass);
        b.vec[0] = x + a.vec[0];
        b.vec[1] = y + a.vec[1];
        (a, b)
    }

    fn movement(&self) -> Self {
        let mut moved = *self;
        moved.x += moved.vec[0];
        moved.y += moved.vec[1];
        moved
    }
}

fn three_planets() -> Vec<Planet> {
    vec![
        Planet { x: 150.0, y: 15.0, mass: 15.0, vec: [-0.07, 0.0] },
        Planet { x: 225.0, y: 233.0, mass: 15.0, vec: [0.07, 0.07] },
        Planet { x: 300.0, y: 50.0, mass: 2.0, vec: [0.15, 0.15] },
    ]
}

fn close(left: f64, right: f64, tolerance: f64) -> bool {
    (left - right).abs() <= tolerance
}

/// The velocity of a body at `(x, y)` of mass `mass` after a body of mass `other_mass` at
/// `(other_x, other_y)` has pulled on it.
fn pulled(
    x: f64,
    y: f64,
    mass: f64,
    vec: [f64; 2],
    other_x: f64,
    other_y: f64,
    other_mass: f64,
) -> [f64; 2] {
    let dx = other_x - x;
    let dy = other_y - y;
    let r = dx.hypot(dy);
    let acceleration = other_mass / r.powf(2.0) / mass;
    [vec[0] + acceleration * dx / r, vec[1] + acceleration * dy / r]
}

#[test]
fn no_pair_of_the_three_planets_collides_at_the_start() {
    let planets = three_planets();
    for a in 0..3 {
        for b in 0..3 {
            if a != b {
                assert!(!planets[a].collision(&planets[b]));
                assert!(planets[a].distance(&planets[b]) > 4.0 * (planets[a].mass + planets[b].mass));
            }
        }
    }
}

#[test]
fn first_tick_of_the_three_planets() {
    let mut app = App::new(three_planets());
    app.update();
    let after = app.planets();

    // Body 0 is pulled by body 1 and moves, is pulled by body 2 and moves again.
    let v = pulled(150.0, 15.0, 15.0, [-0.07, 0.0], 225.0, 233.0, 15.0);
    let (x0, y0) = (150.0 + v[0], 15.0 + v[1]);
    let v0 = pulled(x0, y0, 15.0, v, 300.0, 50.0, 2.0);
    let (x0, y0) = (x0 + v0[0], y0 + v0[1]);
    // Body 1 meets body 0 where it now is, then body 2.
    let v = pulled(225.0, 233.0, 15.0, [0.07, 0.07], x0, y0, 15.0);
    let (x1, y1) = (225.0 + v[0], 233.0 + v[1]);
    let v1 = pulled(x1, y1, 15.0, v, 300.0, 50.0, 2.0);
    let (x1, y1) = (x1 + v1[0], y1 + v1[1]);
    // Body 2 meets both where they now are.
    let v = pulled(300.0, 50.0, 2.0, [0.15, 0.15], x0, y0, 15.0);
    let (x2, y2) = (300.0 + v[0], 50.0 + v[1]);
    let v2 = pulled(x2, y2, 2.0, v, x1, y1, 15.0);
    let (x2, y2) = (x2 + v2[0], y2 + v2[1]);

    assert_eq!(after[0], Planet { x: x0, y: y0, mass: 15.0, vec: v0 });
    assert_eq!(after[1], Planet { x: x1, y: y1, mass: 15.0, vec: v1 });
    assert_eq!(after[2], Planet { x: x2, y: y2, mass: 2.0, vec: v2 });

    let tolerance = 1e-9;
    assert!(close(after[0].x, 149.86001771012496, tolerance));
    assert!(close(after[0].y, 15.000036858429878, tolerance));
    assert!(close(after[0].vec[0], -0.06998841082198334, tolerance));
    assert!(close(after[0].vec[1], 1.9066877354077833e-05, tolerance));
    assert!(close(after[1].x, 225.1399890332796, tolerance));
    assert!(close(after[1].y, 233.13996128438728, tolerance));
    assert!(close(after[1].vec[0], 0.06999516201803566, tolerance));
    assert!(close(after[1].vec[1], 0.06997906539698984, tolerance));
    assert!(close(after[2].x, 300.2993126224729, tolerance));
    assert!(close(after[2].y, 50.30003414616072, tolerance));
    assert!(close(after[2].vec[0], 0.1496199459609063, tolerance));
    assert!(close(after[2].vec[1], 0.15010578804178143, tolerance));
}

#[test]
fn the_position_moves_by_the_velocity_after_each_pull() {
    let mut app = App::new(three_planets());
    app.update();
    let after = app.planets();
    // The last step of body 0 was by its final velocity, the one before by the velocity
    // that only body 1 had changed.
    let v = pulled(150.0, 15.0, 15.0, [-0.07, 0.0], 225.0, 233.0, 15.0);
    assert_eq!(after[0].x, (150.0 + v[0]) + after[0].vec[0]);
    assert_eq!(after[0].y, (15.0 + v[1]) + after[0].vec[1]);
}

#[test]
fn equal_masses_head_on_swap_velocities() {
    let mass = 1000.0;
    let threshold = 4.0 * (mass + mass);
    let left = Planet { x: 0.0, y: 0.0, mass, vec: [1.0, 0.0] };
    let right = Planet { x: threshold, y: 0.0, mass, vec: [-1.0, 0.0] };
    assert!(left.collision(&right));
    assert_eq!(left.distance(&right), left.radius() * 2.0 + right.radius() * 2.0);

    let mut app = App::new(vec![left, right]);
    app.update();
    let after = app.planets();
    let tolerance = 1e-6;
    assert!(close(after[0].vec[0], -1.0, tolerance));
    assert!(close(after[0].vec[1], 0.0, tolerance));
    assert!(close(after[1].vec[0], 1.0, tolerance));
    assert!(close(after[1].vec[1], 0.0, tolerance));
    assert_eq!(after[0].mass, mass);
    assert_eq!(after[1].mass, mass);
}

#[test]
fn head_on_collision_in_exact_numbers() {
    let left = Planet { x: 0.0, y: 0.0, mass: 1.0, vec: [1.0, 0.0] };
    let right = Planet { x: 8.0, y: 0.0, mass: 1.0, vec: [-1.0, 0.0] };
    let mut app = App::new(vec![left, right]);
    app.update();
    let after = app.planets();
    // The left body is pulled to 1 + 1/64, takes the velocity of the right one and moves.
    assert_eq!(after[0], Planet { x: -1.0, y: 0.0, mass: 1.0, vec: [-1.0, 0.0] });
    // The right body takes 1 + 1/64 in the exchange; in its own turn the left body, now
    // nine away, pulls it back by 1/81, and the two no longer collide.
    let vx = (1.0 + 1.0 / 64.0) + (1.0 / 9.0_f64.powf(2.0) / 1.0) * -9.0 / 9.0;
    assert_eq!(after[1], Planet { x: 8.0 + vx, y: 0.0, mass: 1.0, vec: [vx, 0.0] });
    assert!(close(after[1].vec[0], 1.0032793209876543, 1e-12));
    assert!(close(after[1].x, 9.003279320987655, 1e-12));
}

#[test]
fn collision_is_at_four_times_the_sum_of_the_masses() {
    let a = Planet { x: 0.0, y: 0.0, mass: 1.5, vec: [0.0, 0.0] };
    let at = Planet { x: 0.0, y: 14.0, mass: 2.0, vec: [0.0, 0.0] };
    let beyond = Planet { x: 0.0, y: 14.5, mass: 2.0, vec: [0.0, 0.0] };
    assert_eq!(a.radius(), 3.0);
    assert!(a.collision(&at));
    assert!(at.collision(&a));
    assert!(!a.collision(&beyond));
    assert!(!beyond.collision(&a));
}

#[test]
fn a_lone_planet_never_changes() {
    let start = Planet { x: 3.5, y: -2.25, mass: 4.0, vec: [0.0, 0.0] };
    let mut app = App::new(vec![start]);
    for _ in 0..100 {
        app.update();
        assert_eq!(*app.planets(), vec![start]);
    }
    let drifting = Planet { x: 1.0, y: 2.0, mass: 4.0, vec: [0.5, -0.5] };
    let mut app = App::new(vec![drifting]);
    for _ in 0..100 {
        app.update();
        assert_eq!(*app.planets(), vec![drifting]);
    }
}

#[test]
fn masses_stay_as_they_were() {
    let mut app = App::new(three_planets());
    for _ in 0..50 {
        app.update();
        let masses: Vec<f64> = app.planets().iter().map(|planet| planet.mass).collect();
        assert_eq!(masses, vec![15.0, 15.0, 2.0]);
        for planet in app.planets().iter() {
            assert_eq!(planet.radius(), 2.0 * planet.mass);
        }
    }
}

#[test]
fn coincident_planets_go_to_not_a_number() {
    let a = Planet { x: 1.0, y: 1.0, mass: 1.0, vec: [0.0, 0.0] };
    let mut app = App::new(vec![a, a]);
    app.update();
    assert!(app.planets()[0].vec[0].is_nan());
    assert_eq!(app.planets().len(), 2);
}
