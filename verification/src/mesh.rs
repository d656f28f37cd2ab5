use vstd::prelude::*;

verus! {

/// The vertex indices of an integer sequence taken as mathematical integers.
pub open spec fn as_ints(s: Seq<u32>) -> Seq<int> {
    s.map_values(|x: u32| x as int)
}

/// The triangles of the quad between latitude rows `i` and `i + 1` and
/// longitudes `j` and `j + 1` of a UV sphere with `sectors` longitudes and
/// `stacks` latitude bands: the upper triangle except in the top band, the
/// lower triangle except in the bottom band.
pub open spec fn sphere_cell(sectors: int, stacks: int, i: int, j: int) -> Seq<int> {
    let k1 = i * (sectors + 1);
    let k2 = k1 + sectors + 1;
    (if i != 0 { seq![k1 + j, k2 + j, k1 + j + 1] } else { Seq::empty() })
        + (if i != stacks - 1 { seq![k1 + j + 1, k2 + j, k2 + j + 1] } else { Seq::empty() })
}

/// The triangles of the first `m` quads of latitude band `i`.
pub open spec fn sphere_band(sectors: int, stacks: int, i: int, m: int) -> Seq<int>
    decreases m,
{
    if m <= 0 {
        Seq::empty()
    } else {
        sphere_band(sectors, stacks, i, m - 1) + sphere_cell(sectors, stacks, i, m - 1)
    }
}

/// The triangles of the first `m` latitude bands.
pub open spec fn sphere_bands(sectors: int, stacks: int, m: int) -> Seq<int>
    decreases m,
{
    if m <= 0 {
        Seq::empty()
    } else {
        sphere_bands(sectors, stacks, m - 1) + sphere_band(sectors, stacks, m - 1, sectors)
    }
}

/// The index list (three per triangle) of a UV sphere whose vertices are laid
/// out row by row, `stacks + 1` rows of `sectors + 1` vertices each.
pub fn sphere_indices(sectors: u32, stacks: u32) -> (r: Vec<u32>)
    requires
        (stacks + 1) * (sectors + 1) <= 0x1_0000_0000,
    ensures
        as_ints(r@) == sphere_bands(sectors as int, stacks as int, stacks as int),
{
    let mut r: Vec<u32> = Vec::new();
    let mut i: u32 = 0;
    while i < stacks
        invariant
            (stacks + 1) * (sectors + 1) <= 0x1_0000_0000,
            i <= stacks,
            as_ints(r@) == sphere_bands(sectors as int, stacks as int, i as int),
        decreases stacks - i,
    {
        proof {
            assert((i + 2) * (sectors + 1) <= (stacks + 1) * (sectors + 1)) by (nonlinear_arith)
                requires i + 1 <= stacks;
            assert((i + 1) * (sectors + 1) == i * (sectors + 1) + sectors + 1) by (nonlinear_arith);
            assert((i + 2) * (sectors + 1) == i * (sectors + 1) + 2 * (sectors + 1)) by (nonlinear_arith);
            assert(0 <= i * (sectors + 1)) by (nonlinear_arith)
                requires 0 <= i;
        }
        let k1 = i * (sectors + 1);
        let k2 = k1 + sectors + 1;
        let ghost start = r@;
        let mut j: u32 = 0;
        while j < sectors
            invariant
                (stacks + 1) * (sectors + 1) <= 0x1_0000_0000,
                i < stacks,
                j <= sectors,
                k1 == i * (sectors + 1),
                k2 == k1 + sectors + 1,
                k2 + sectors + 1 <= 0x1_0000_0000,
                as_ints(r@) == sphere_bands(sectors as int, stacks as int, i as int)
                    + sphere_band(sectors as int, stacks as int, i as int, j as int),
            decreases sectors - j,
        {
            let ghost before = r@;
            if i != 0 {
                r.push(k1 + j);
                r.push(k2 + j);
                r.push(k1 + j + 1);
            }
            if i != stacks - 1 {
                r.push(k1 + j + 1);
                r.push(k2 + j);
                r.push(k2 + j + 1);
            }
            proof {
                assert(as_ints(r@) =~= as_ints(before) + sphere_cell(sectors as int, stacks as int, i as int, j as int));
            }
            j = j + 1;
        }
        i = i + 1;
    }
    r
}

/// The triangles of the first `m` segments of a flat ring whose vertices
/// alternate inner and outer, two per segment boundary.
pub open spec fn ring_triangles(m: int) -> Seq<int>
    decreases m,
{
    if m <= 0 {
        Seq::empty()
    } else {
        let q = m - 1;
        ring_triangles(q) + seq![2 * q, 2 * q + 1, 2 * q + 2, 2 * q + 2, 2 * q + 1, 2 * q + 3]
    }
}

/// The index list (three per triangle, two triangles per segment) of a flat
/// ring with `segments` segments.
pub fn ring_indices(segments: u32) -> (r: Vec<u32>)
    requires
        2 * segments + 1 <= u32::MAX,
    ensures
        as_ints(r@) == ring_triangles(segments as int),
{
    let mut r: Vec<u32> = Vec::new();
    let mut i: u32 = 0;
    while i < segments
        invariant
            2 * segments + 1 <= u32::MAX,
            i <= segments,
            as_ints(r@) == ring_triangles(i as int),
        decreases segments - i,
    {
        let ghost before = r@;
        let i0 = i * 2;
        let i1 = i * 2 + 1;
        let i2 = i * 2 + 2;
        let i3 = i * 2 + 3;
        r.push(i0);
        r.push(i1);
        r.push(i2);
        r.push(i2);
        r.push(i1);
        r.push(i3);
        proof {
            assert(as_ints(r@) =~= ring_triangles(i as int + 1));
        }
        i = i + 1;
    }
    r
}

} // verus!
