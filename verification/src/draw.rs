use vstd::prelude::*;

verus! {

/// Byte stride between consecutive per-object uniform blocks in the model
/// uniform buffer (the size of one block).
pub const UNIFORM_STRIDE: u32 = 256;

/// Number of per-object uniform blocks the model uniform buffer holds.
pub const MAX_OBJECTS: usize = 64;

/// Object type code of a black hole's event horizon.
pub const OBJECT_BLACK_HOLE: u32 = 0;

/// Object type code of an ordinary body.
pub const OBJECT_BODY: u32 = 4;

/// What a per-object uniform block describes.
#[derive(Clone, Copy, PartialEq, Eq, Debug)]
pub enum DrawSource {
    /// The body with this index.
    Body(usize),
    /// The wave object with this index.
    Wave(usize),
    /// The black hole with this index.
    BlackHole(usize),
    /// The body about to be added.
    PreviewBody,
    /// The black hole about to be added.
    PreviewBlackHole,
    /// The sky sphere.
    Background,
}

/// Which mesh an object type is drawn with.
#[derive(Clone, Copy, PartialEq, Eq, Debug)]
pub enum Mesh {
    Sphere,
    Ring,
}

/// The uniform blocks to fill, the draws to issue and where the sky sphere's
/// block lies, for one frame.
pub struct DrawPlan {
    /// The sources of the uniform blocks written to the buffer, block by block.
    pub uniforms: Vec<DrawSource>,
    /// The object draws, in order: byte offset of the object's block and its type.
    pub calls: Vec<(u32, u32)>,
    /// The byte offset of the sky sphere's block, when it is drawn.
    pub background: Option<u32>,
}

/// The objects of a frame in the order their uniform blocks are laid out,
/// each with its object type, before the sky sphere: the bodies (when bodies
/// are shown), the wave objects (when waves are shown), the black holes (when
/// bodies are shown), then the previews of the body and of the black hole
/// about to be added.
pub open spec fn frame_objects(
    show_bodies: bool,
    n_bodies: int,
    show_waves: bool,
    wave_types: Seq<u32>,
    n_black_holes: int,
    preview_body: bool,
    preview_black_hole: bool,
) -> Seq<(DrawSource, u32)> {
    (if show_bodies {
        Seq::new(n_bodies as nat, |b: int| (DrawSource::Body(b as usize), OBJECT_BODY))
    } else {
        Seq::empty()
    }) + (if show_waves {
        Seq::new(wave_types.len(), |w: int| (DrawSource::Wave(w as usize), wave_types[w]))
    } else {
        Seq::empty()
    }) + (if show_bodies {
        Seq::new(n_black_holes as nat, |h: int| (DrawSource::BlackHole(h as usize), OBJECT_BLACK_HOLE))
    } else {
        Seq::empty()
    }) + (if preview_body {
        seq![(DrawSource::PreviewBody, OBJECT_BODY)]
    } else {
        Seq::empty()
    }) + (if preview_black_hole {
        seq![(DrawSource::PreviewBlackHole, OBJECT_BLACK_HOLE)]
    } else {
        Seq::empty()
    })
}

/// The smaller of two integers.
pub open spec fn min_int(a: int, b: int) -> int {
    if a <= b { a } else { b }
}

/// Whether the sky sphere gets a block: it is shown and a block is still free.
pub open spec fn background_fits(objs: Seq<(DrawSource, u32)>, show_background: bool) -> bool {
    show_background && objs.len() < MAX_OBJECTS
}

/// The sources of the uniform blocks written for a frame: the objects in
/// order, then the sky sphere when it fits, at most `MAX_OBJECTS` of them.
pub open spec fn planned_blocks(objs: Seq<(DrawSource, u32)>, show_background: bool) -> Seq<DrawSource> {
    let blocks = objs.map_values(|o: (DrawSource, u32)| o.0)
        + if background_fits(objs, show_background) { seq![DrawSource::Background] } else { Seq::empty() };
    blocks.take(min_int(blocks.len() as int, MAX_OBJECTS as int))
}

/// The object draws of a frame: the objects whose block was written, each
/// with the byte offset of its block and its object type.
pub open spec fn planned_calls(objs: Seq<(DrawSource, u32)>) -> Seq<(u32, u32)> {
    Seq::new(min_int(objs.len() as int, MAX_OBJECTS as int) as nat, |q: int| ((q * 256) as u32, objs[q].1))
}

/// Lays out one frame's objects: each object gets the next uniform block
/// (the sky sphere last, and only when a block is still free); at most
/// `MAX_OBJECTS` blocks are written, and only the objects whose block was
/// written are drawn.
pub fn plan_draws(
    show_bodies: bool,
    n_bodies: usize,
    show_waves: bool,
    wave_types: &Vec<u32>,
    n_black_holes: usize,
    preview_body: bool,
    preview_black_hole: bool,
    show_background: bool,
) -> (plan: DrawPlan)
    requires
        (n_bodies + wave_types@.len() + n_black_holes + 2) * 256 <= u32::MAX,
    ensures
        ({
            let objs = frame_objects(show_bodies, n_bodies as int, show_waves, wave_types@, n_black_holes as int,
                preview_body, preview_black_hole);
            &&& plan.uniforms@ == planned_blocks(objs, show_background)
            &&& plan.calls@ == planned_calls(objs)
            &&& plan.background == if background_fits(objs, show_background) {
                Some((objs.len() * 256) as u32)
            } else {
                None
            }
        }),
{
    let ghost objs = frame_objects(show_bodies, n_bodies as int, show_waves, wave_types@, n_black_holes as int,
        preview_body, preview_black_hole);
    let mut all: Vec<(DrawSource, u32)> = Vec::new();
    if show_bodies {
        let mut b: usize = 0;
        while b < n_bodies
            invariant
                b <= n_bodies,
                all@ == Seq::new(b as nat, |x: int| (DrawSource::Body(x as usize), OBJECT_BODY)),
            decreases n_bodies - b,
        {
            all.push((DrawSource::Body(b), OBJECT_BODY));
            b = b + 1;
            proof {
                assert(all@ =~= Seq::new(b as nat, |x: int| (DrawSource::Body(x as usize), OBJECT_BODY)));
            }
        }
    }
    let ghost part1 = all@;
    if show_waves {
        let nw = wave_types.len();
        let mut w: usize = 0;
        while w < nw
            invariant
                nw == wave_types@.len(),
                w <= nw,
                all@ == part1 + Seq::new(w as nat, |x: int| (DrawSource::Wave(x as usize), wave_types@[x])),
            decreases nw - w,
        {
            all.push((DrawSource::Wave(w), wave_types[w]));
            w = w + 1;
            proof {
                assert(all@ =~= part1 + Seq::new(w as nat, |x: int| (DrawSource::Wave(x as usize), wave_types@[x])));
            }
        }
    }
    let ghost part2 = all@;
    if show_bodies {
        let mut h: usize = 0;
        while h < n_black_holes
            invariant
                h <= n_black_holes,
                all@ == part2 + Seq::new(h as nat, |x: int| (DrawSource::BlackHole(x as usize), OBJECT_BLACK_HOLE)),
            decreases n_black_holes - h,
        {
            all.push((DrawSource::BlackHole(h), OBJECT_BLACK_HOLE));
            h = h + 1;
            proof {
                assert(all@ =~= part2 + Seq::new(h as nat, |x: int| (DrawSource::BlackHole(x as usize), OBJECT_BLACK_HOLE)));
            }
        }
    }
    if preview_body {
        all.push((DrawSource::PreviewBody, OBJECT_BODY));
    }
    if preview_black_hole {
        all.push((DrawSource::PreviewBlackHole, OBJECT_BLACK_HOLE));
    }
    proof {
        assert(all@ =~= objs);
        assert(objs.len() <= n_bodies + wave_types@.len() + n_black_holes + 2);
    }
    let n = all.len();
    let bg = show_background && n < MAX_OBJECTS;
    let written = if bg { if n + 1 < MAX_OBJECTS { n + 1 } else { MAX_OBJECTS } } else if n < MAX_OBJECTS { n } else { MAX_OBJECTS };
    let drawn = if n < MAX_OBJECTS { n } else { MAX_OBJECTS };
    let mut uniforms: Vec<DrawSource> = Vec::new();
    let mut calls: Vec<(u32, u32)> = Vec::new();
    let mut q: usize = 0;
    while q < drawn
        invariant
            n == objs.len(),
            all@ == objs,
            drawn == min_int(n as int, MAX_OBJECTS as int),
            n * 256 <= u32::MAX,
            q <= drawn,
            uniforms@ == objs.map_values(|o: (DrawSource, u32)| o.0).take(q as int),
            calls@ == Seq::new(q as nat, |x: int| ((x * 256) as u32, objs[x].1)),
        decreases drawn - q,
    {
        let (src, ty) = all[q];
        uniforms.push(src);
        calls.push(((q as u32) * UNIFORM_STRIDE, ty));
        q = q + 1;
        proof {
            assert(uniforms@ =~= objs.map_values(|o: (DrawSource, u32)| o.0).take(q as int));
            assert(calls@ =~= Seq::new(q as nat, |x: int| ((x * 256) as u32, objs[x].1)));
        }
    }
    let background = if bg {
        uniforms.push(DrawSource::Background);
        Some((n as u32) * UNIFORM_STRIDE)
    } else {
        None
    };
    proof {
        assert(calls@ =~= planned_calls(objs));
        let heads = objs.map_values(|o: (DrawSource, u32)| o.0);
        assert(heads.len() == n);
        if bg {
            let blocks = heads + seq![DrawSource::Background];
            assert(heads.take(n as int) =~= heads);
            assert(blocks.take(min_int(blocks.len() as int, MAX_OBJECTS as int)) =~= blocks);
            assert(uniforms@ =~= blocks);
        } else {
            let blocks = heads + Seq::empty();
            assert(blocks =~= heads);
            assert(uniforms@ =~= blocks.take(min_int(blocks.len() as int, MAX_OBJECTS as int)));
        }
    }
    DrawPlan { uniforms, calls, background }
}

/// The mesh an object type is drawn with: horizons, wave shells and bodies
/// (types 0, 2 and 4) use the sphere, accretion rings (type 1) the ring;
/// other types are not drawn.
pub fn mesh_for(object_type: u32) -> (m: Option<Mesh>)
    ensures
        m == (if object_type == 0 || object_type == 2 || object_type == 4 {
            Some(Mesh::Sphere)
        } else if object_type == 1 {
            Some(Mesh::Ring)
        } else {
            None
        }),
{
    match object_type {
        0 | 2 | 4 => Some(Mesh::Sphere),
        1 => Some(Mesh::Ring),
        _ => None,
    }
}

} // verus!
