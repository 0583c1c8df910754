use anthroforge_core::clothing_deformer::{fit_clothing_to_skin, ClothAnchor};
use anthroforge_core::single::Single;
use anthroforge_core::vector::v_normalize;
use anthroforge_core::vertex::SkinnedVertex;

fn s(x: f32) -> Single {
    Single { bits: x.to_bits() }
}

fn wide(x: Single) -> f64 {
    f32::from_bits(x.bits) as f64
}

/// A generator of numbers between -1 and 1.
struct Noise {
    state: u64,
}

impl Noise {
    fn next(&mut self) -> f32 {
        self.state ^= self.state << 13;
        self.state ^= self.state >> 7;
        self.state ^= self.state << 17;
        ((self.state >> 40) as f32) / 8_388_608.0 - 1.0
    }
}

const ROUNDOFF: f64 = 1.0 / 16_777_216.0;

#[test]
fn operations_are_accurate() {
    let mut noise = Noise { state: 0x9e37_79b9_7f4a_7c15 };
    for _ in 0..2000 {
        let (x, y) = (s(noise.next() * 1000.0), s(noise.next()));
        let (a, b) = (wide(x), wide(y));
        let near = |got: Single, exact: f64| (wide(got) - exact).abs() <= ROUNDOFF * exact.abs() + 1e-44;
        assert!(near(x.plus(y), a + b));
        assert!(near(x.minus(y), a - b));
        assert!(near(x.times(y), a * b));
        if b != 0.0 {
            assert!(near(x.divided_by(y), a / b));
        }
        let root = wide(x.abs().sqrt());
        assert!((root * root - a.abs()).abs() <= 2.1 * ROUNDOFF * a.abs());
    }
}

#[test]
fn results_up_to_the_limit_do_not_overflow() {
    let half = s(2.0f32.powi(126));
    assert!(half.plus(half).is_finite());
    assert_eq!(half.plus(half), s(2.0f32.powi(127)));
    assert!(s(f32::MAX).plus(s(f32::MAX)).is_infinite());
}

#[test]
fn directions_are_unit_vectors() {
    let mut noise = Noise { state: 0x1357_9bdf_0246_8ace };
    for i in 0..2000 {
        let size = 10.0f32.powi(i % 36 - 6);
        let v = [s(noise.next() * size), s(noise.next() * size), s(noise.next() * size)];
        if let Some(n) = v_normalize(v) {
            let square: f64 = n.iter().map(|&x| wide(x) * wide(x)).sum();
            assert!((square - 1.0).abs() <= 32.0 * ROUNDOFF);
        }
    }
}

fn vertex(position: [f32; 3], normal: [f32; 3]) -> SkinnedVertex {
    SkinnedVertex {
        position: position.map(s),
        normal: normal.map(s),
        uv: [s(0.0); 2],
        bone_indices: [0; 4],
        bone_weights: [s(0.0); 4],
    }
}

/// The exact distance from the tangent plane, as far as double precision goes.
fn distance(cloth: &SkinnedVertex, skin: &SkinnedVertex) -> f64 {
    let n = v_normalize(skin.normal).expect("a direction");
    (0..3).map(|k| (wide(cloth.position[k]) - wide(skin.position[k])) * wide(n[k])).sum()
}

#[test]
fn fitted_clothing_keeps_its_clearance() {
    let mut noise = Noise { state: 0x0bad_cafe_dead_beef };
    for _ in 0..500 {
        let mut random = || [noise.next(), noise.next(), noise.next()];
        let skin = vertex(random(), random());
        if v_normalize(skin.normal).is_none() {
            continue;
        }
        let offset = random().map(|x| s(x * 0.25));
        let scale = random().map(|x| s(1.5 + x));
        let clearance = (offset[0].bits % 1000) as f32 / 5000.0;
        let anchor = ClothAnchor {
            target_skin_vertex_index: 0,
            local_offset: offset,
            thickness_clearance: s(clearance),
        };
        let mut cloth = [vertex([0.0; 3], [0.0; 3])];
        fit_clothing_to_skin(&[skin], &mut cloth, &[anchor], scale, s(0.002)).expect("fit");
        let wanted = clearance as f64 + wide(s(0.002));
        // No coordinate here is beyond 2.
        let error = 2.0 / 32768.0;
        assert!(distance(&cloth[0], &skin) >= wanted - error);
        assert!(distance(&cloth[0], &skin) > 0.0);
    }
}

#[test]
fn a_clearance_far_below_the_coordinates_is_lost_to_rounding() {
    // At 2^27 the next larger number is 16 away: a clearance of 1 is rounded off.
    let far = 134_217_728.0f32;
    let skin = vertex([far, 0.0, 0.0], [1.0, 0.0, 0.0]);
    let anchor = ClothAnchor {
        target_skin_vertex_index: 0,
        local_offset: [s(0.0); 3],
        thickness_clearance: s(1.0),
    };
    let mut cloth = [vertex([0.0; 3], [0.0; 3])];
    fit_clothing_to_skin(&[skin], &mut cloth, &[anchor], [s(1.0); 3], s(0.0)).expect("fit");
    assert_eq!(distance(&cloth[0], &skin), 0.0);
}
