//! The demonstration scene: a ground sphere, a grid of small random spheres and
//! three large ones.
use crate::dielectric::Dielectric;
use crate::fixed::{fadd, fmul, fx_mul, sat, HALF, ONE};
use crate::hittable::{Hittables, HittableList};
use crate::lambertian::Lambertian;
use crate::material::Materials;
use crate::metal::Metal;
use crate::sphere::Sphere;
use crate::vec::{diff_all, prod_all, sum_all, vec3, Point, Vec};
use vstd::prelude::*;

verus! {

/// Cells per side of the grid of small spheres, which spans `[-11, 11)` on x and z.
pub const GRID: i64 = 22;

/// The random values that one grid cell consumes, each uniform in `[0, 1)`
/// (per component, for the vectors).
#[derive(Clone, Copy, Debug, PartialEq, Eq, Structural)]
pub struct CellDraw {
    pub choose: i64,
    pub jitter_x: i64,
    pub jitter_z: i64,
    pub tint_a: Vec,
    pub tint_b: Vec,
    pub fuzz: i64,
}

pub open spec fn unit_interval(v: int) -> bool {
    0 <= v < ONE
}

impl CellDraw {
    pub open spec fn wf(self) -> bool {
        &&& unit_interval(self.choose as int) && unit_interval(self.jitter_x as int)
        &&& unit_interval(self.jitter_z as int) && unit_interval(self.fuzz as int)
        &&& unit_interval(self.tint_a.x as int) && unit_interval(self.tint_a.y as int)
        &&& unit_interval(self.tint_a.z as int)
        &&& unit_interval(self.tint_b.x as int) && unit_interval(self.tint_b.y as int)
        &&& unit_interval(self.tint_b.z as int)
    }
}

/// 0.2, the radius and height of the small spheres.
pub const SMALL: i64 = 13107;

/// 0.9, the jitter span within a cell and the clearance kept around the
/// large metal sphere.
pub const NINE_TENTHS: i64 = 58982;

/// The chance of a diffuse small sphere (0.8) and, below the second bound
/// (0.96), of a metal one; glass above.
pub const DIFFUSE_BELOW: i64 = 52428;

pub const METAL_BELOW: i64 = 62914;

/// 1.5, the refractive index of the glass spheres.
pub const GLASS: i64 = 98304;

pub open spec fn cell_centre(i: int, j: int, d: CellDraw) -> Point {
    vec3(
        sat(i * ONE) + fx_mul(NINE_TENTHS as int, d.jitter_x as int),
        SMALL as int,
        sat(j * ONE) + fx_mul(NINE_TENTHS as int, d.jitter_z as int),
    )
}

/// The material that the draw `d` picks for a small sphere.
pub open spec fn cell_material(d: CellDraw) -> Materials {
    if d.choose < DIFFUSE_BELOW {
        Materials::Lambertian(Lambertian { albedo: d.tint_a.times(d.tint_b) })
    } else if d.choose < METAL_BELOW {
        Materials::Metal(
            Metal {
                albedo: Vec { x: HALF, y: HALF, z: HALF }.plus(
                    d.tint_a.scale(HALF as int),
                ),
                fuzz: fx_mul(HALF as int, d.fuzz as int) as i64,
            },
        )
    } else {
        Materials::Dielectric(Dielectric { ir: GLASS })
    }
}

/// The small sphere of cell `(i, j)`, unless it would crowd the large metal sphere.
pub open spec fn cell_sphere(i: int, j: int, d: CellDraw) -> Option<Hittables> {
    let centre = cell_centre(i, j, d);
    let clear = Vec { x: (4 * ONE) as i64, y: SMALL, z: 0 };
    if centre.minus(clear).len_spec() > NINE_TENTHS {
        Some(Hittables::Sphere(Sphere { c: centre, r: SMALL, mat: cell_material(d) }))
    } else {
        None
    }
}

/// The small spheres of the first `k` cells, cell `k` lying at
/// `(k / GRID - 11, k % GRID - 11)`.
pub open spec fn cells_spheres(cells: Seq<CellDraw>, k: int) -> Seq<Hittables>
    decreases k,
{
    if k <= 0 {
        Seq::empty()
    } else {
        let rest = cells_spheres(cells, k - 1);
        match cell_sphere((k - 1) / GRID as int - 11, (k - 1) % GRID as int - 11, cells[k - 1]) {
            Some(h) => rest.push(h),
            None => rest,
        }
    }
}

pub open spec fn ground() -> Hittables {
    let grey = Vec { x: HALF, y: HALF, z: HALF };
    Hittables::Sphere(
        Sphere {
            c: Vec { x: 0, y: (-1000 * ONE) as i64, z: 0 },
            r: (1000 * ONE) as i64,
            mat: Materials::Lambertian(Lambertian { albedo: grey }),
        },
    )
}

pub open spec fn large_spheres() -> Seq<Hittables> {
    seq![
        Hittables::Sphere(
            Sphere {
                c: Vec { x: 0, y: ONE, z: 0 },
                r: ONE,
                mat: Materials::Dielectric(Dielectric { ir: GLASS }),
            },
        ),
        Hittables::Sphere(
            Sphere {
                c: Vec { x: (-4 * ONE) as i64, y: ONE, z: 0 },
                r: ONE,
                mat: Materials::Lambertian(Lambertian { albedo: Vec { x: 26214, y: 13107, z: 6553 } }),
            },
        ),
        Hittables::Sphere(
            Sphere {
                c: Vec { x: (4 * ONE) as i64, y: ONE, z: 0 },
                r: ONE,
                mat: Materials::Metal(Metal { albedo: Vec { x: 45875, y: 39321, z: 32768 }, fuzz: 0 }),
            },
        ),
    ]
}

/// The scene that the cell draws `cells` give.
pub open spec fn scene_spec(cells: Seq<CellDraw>) -> Seq<Hittables> {
    seq![ground()] + cells_spheres(cells, GRID * GRID) + large_spheres()
}

/// Builds the demonstration scene from one draw per grid cell, the cells
/// taken row by row from `(-11, -11)`.
pub fn random_scene(cells: &[CellDraw]) -> (world: HittableList)
    requires
        cells@.len() == GRID * GRID,
        forall|k: int| 0 <= k < cells@.len() ==> (#[trigger] cells@[k]).wf(),
    ensures
        world.objects@ == scene_spec(cells@),
        world.wf(),
{
    let half = Vec { x: HALF, y: HALF, z: HALF };
    let mut objects: std::vec::Vec<Hittables> = std::vec::Vec::new();
    objects.push(
        Hittables::Sphere(
            Sphere {
                c: Vec { x: 0, y: -1000 * ONE, z: 0 },
                r: 1000 * ONE,
                mat: Materials::Lambertian(Lambertian { albedo: half }),
            },
        ),
    );
    let clear = Vec { x: 4 * ONE, y: SMALL, z: 0 };
    let mut k: usize = 0;
    while k < cells.len()
        invariant
            k <= cells@.len() == GRID * GRID,
            half == (Vec { x: HALF, y: HALF, z: HALF }),
            clear == (Vec { x: (4 * ONE) as i64, y: SMALL, z: 0 }),
            forall|m: int| 0 <= m < cells@.len() ==> (#[trigger] cells@[m]).wf(),
            objects@ == seq![ground()] + cells_spheres(cells@, k as int),
            forall|m: int| 0 <= m < objects@.len() ==> (#[trigger] objects@[m]).wf(),
        decreases cells@.len() - k,
    {
        let d = cells[k];
        assert(d.wf());
        let i: i64 = (k / 22) as i64 - 11;
        let j: i64 = (k % 22) as i64 - 11;
        let centre = Vec {
            x: fadd(i * ONE, fmul(NINE_TENTHS, d.jitter_x)),
            y: SMALL,
            z: fadd(j * ONE, fmul(NINE_TENTHS, d.jitter_z)),
        };
        let gap = centre.sub(&[clear]);
        proof {
            reveal_with_fuel(diff_all, 2);
            assert(seq![clear].drop_last() =~= Seq::<Vec>::empty());
            assert(centre == cell_centre(i as int, j as int, d));
        }
        if gap.len() > NINE_TENTHS {
            let mat = if d.choose < DIFFUSE_BELOW {
                let albedo = d.tint_a.mul(&[d.tint_b]);
                proof {
                    reveal_with_fuel(prod_all, 2);
                    assert(seq![d.tint_b].drop_last() =~= Seq::<Vec>::empty());
                }
                Materials::Lambertian(Lambertian { albedo })
            } else if d.choose < METAL_BELOW {
                let shade = d.tint_a.mulf(HALF);
                let albedo = half.add(&[shade]);
                proof {
                    reveal_with_fuel(sum_all, 2);
                    assert(seq![shade].drop_last() =~= Seq::<Vec>::empty());
                }
                Materials::Metal(Metal { albedo, fuzz: fmul(HALF, d.fuzz) })
            } else {
                Materials::Dielectric(Dielectric { ir: GLASS })
            };
            assert(mat == cell_material(d));
            objects.push(Hittables::Sphere(Sphere { c: centre, r: SMALL, mat }));
        }
        k += 1;
    }
    objects.push(
        Hittables::Sphere(
            Sphere { c: Vec { x: 0, y: ONE, z: 0 }, r: ONE, mat: Materials::Dielectric(Dielectric { ir: GLASS }) },
        ),
    );
    objects.push(
        Hittables::Sphere(
            Sphere {
                c: Vec { x: -4 * ONE, y: ONE, z: 0 },
                r: ONE,
                mat: Materials::Lambertian(Lambertian { albedo: Vec { x: 26214, y: 13107, z: 6553 } }),
            },
        ),
    );
    objects.push(
        Hittables::Sphere(
            Sphere {
                c: Vec { x: 4 * ONE, y: ONE, z: 0 },
                r: ONE,
                mat: Materials::Metal(Metal { albedo: Vec { x: 45875, y: 39321, z: 32768 }, fuzz: 0 }),
            },
        ),
    );
    assert(objects@ =~= scene_spec(cells@));
    HittableList { objects }
}

} // verus!
