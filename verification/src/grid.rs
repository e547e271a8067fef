use vstd::prelude::*;

verus! {

/// The `i`th of `segments` marks that are spread evenly over `0 ..= extent`,
/// rounded down. A single mark stands at `0`.
pub open spec fn mark(i: int, extent: int, segments: int) -> int {
    if segments < 2 {
        0
    } else {
        (i * extent) / (segments - 1)
    }
}

/// The points of the grid of `segments` by `segments` marks over a picture,
/// column by column.
pub open spec fn grid(dimensions: (u32, u32), segments: u32) -> Seq<(i32, i32)> {
    Seq::new(
        (segments * segments) as nat,
        |k: int|
            (
                mark(k / (segments as int), dimensions.0 as int, segments as int) as i32,
                mark(k % (segments as int), dimensions.1 as int, segments as int) as i32,
            ),
    )
}

fn mark_at(i: u32, extent: u32, segments: u32) -> (m: i32)
    requires
        i < segments,
        extent <= i32::MAX,
    ensures
        m == mark(i as int, extent as int, segments as int),
        0 <= m <= extent,
{
    if segments < 2 {
        0
    } else {
        assert(0 <= i * extent <= (segments - 1) * extent <= 0xffff_ffff * 0x7fff_ffff)
            by (nonlinear_arith)
            requires
                0 <= i <= segments - 1,
                segments <= 0xffff_ffff,
                0 <= extent <= 0x7fff_ffff,
        ;
        proof {
            vstd::arithmetic::div_mod::lemma_div_is_ordered(
                i * extent,
                (segments - 1) * extent,
                segments - 1,
            );
            vstd::arithmetic::div_mod::lemma_div_multiples_vanish(extent as int, segments - 1);
            vstd::arithmetic::div_mod::lemma_div_pos_is_pos(i * extent, segments - 1);
        }
        ((i as u64 * extent as u64) / (segments as u64 - 1)) as i32
    }
}

/// The points that a search starts from: a grid of `segments` by
/// `segments` points that reaches from corner to corner of the picture.
pub fn get_points(dimensions: (u32, u32), segments: u32) -> (points: Vec<(i32, i32)>)
    requires
        dimensions.0 <= i32::MAX,
        dimensions.1 <= i32::MAX,
    ensures
        points@ == grid(dimensions, segments),
{
    let mut points: Vec<(i32, i32)> = Vec::new();
    let mut i: u32 = 0;
    while i < segments
        invariant
            i <= segments,
            dimensions.0 <= i32::MAX,
            dimensions.1 <= i32::MAX,
            points@.len() == i * segments,
            forall|k: int| 0 <= k < points@.len() ==> points@[k] == #[trigger] grid(dimensions, segments)[k],
        decreases segments - i,
    {
        let x = mark_at(i, dimensions.0, segments);
        let mut j: u32 = 0;
        while j < segments
            invariant
                i < segments,
                j <= segments,
                dimensions.1 <= i32::MAX,
                x == mark(i as int, dimensions.0 as int, segments as int),
                points@.len() == i * segments + j,
                forall|k: int|
                    0 <= k < points@.len() ==> points@[k] == #[trigger] grid(dimensions, segments)[k],
            decreases segments - j,
        {
            let y = mark_at(j, dimensions.1, segments);
            proof {
                let k = i * segments + j;
                assert(k / (segments as int) == i && k % (segments as int) == j) by (nonlinear_arith)
                    requires
                        k == i * segments + j,
                        0 <= j < segments,
                        0 <= i,
                ;
                assert(k < segments * segments) by (nonlinear_arith)
                    requires
                        k == i * segments + j,
                        0 <= j < segments,
                        0 <= i < segments,
                ;
            }
            points.push((x, y));
            j = j + 1;
        }
        proof {
            assert(i * segments + segments == (i + 1) * segments) by (nonlinear_arith);
        }
        i = i + 1;
    }
    assert(points@ =~= grid(dimensions, segments));
    points
}

} // verus!
