use vstd::prelude::*;

verus! {

/// All the vertex indices of the complete triangles of `indices` are below
/// `vertex_count`.
pub open spec fn indices_in_range(indices: Seq<u16>, vertex_count: usize) -> bool {
    forall|k: int| 0 <= k < (indices.len() / 3) * 3 ==> (#[trigger] indices[k]) < vertex_count
}

/// Groups a flat index list into triangles, three consecutive indices each;
/// indices after the last complete triangle are ignored. Gives `None` when
/// a triangle names a vertex at or past `vertex_count`.
pub fn triangles_from_indices(indices: &Vec<u16>, vertex_count: usize) -> (r: Option<Vec<[usize; 3]>>)
    ensures
        r.is_some() <==> indices_in_range(indices@, vertex_count),
        r matches Some(tris) ==> {
            &&& tris.len() == indices.len() / 3
            &&& forall|i: int, j: int|
                0 <= i < tris.len() && 0 <= j < 3 ==> (#[trigger] tris@[i]@[j]) == indices@[3 * i + j]
        },
{
    let n = indices.len() / 3;
    let mut tris: Vec<[usize; 3]> = Vec::new();
    let mut i: usize = 0;
    while i < n
        invariant
            i <= n,
            n == indices.len() / 3,
            tris.len() == i,
            forall|k: int| 0 <= k < 3 * i ==> (#[trigger] indices@[k]) < vertex_count,
            forall|a: int, j: int|
                0 <= a < i && 0 <= j < 3 ==> (#[trigger] tris@[a]@[j]) == indices@[3 * a + j],
        decreases n - i,
    {
        let a = indices[3 * i];
        let b = indices[3 * i + 1];
        let c = indices[3 * i + 2];
        if a as usize >= vertex_count || b as usize >= vertex_count || c as usize >= vertex_count {
            proof {
                let bad: int = if a as usize >= vertex_count {
                    3 * i
                } else if b as usize >= vertex_count {
                    3 * i + 1
                } else {
                    3 * i + 2
                };
                assert(indices@[bad] >= vertex_count);
                assert(bad < (indices@.len() / 3) * 3);
            }
            return None;
        }
        let t: [usize; 3] = [a as usize, b as usize, c as usize];
        tris.push(t);
        proof {
            assert forall|k: int| 0 <= k < 3 * (i + 1) implies (#[trigger] indices@[k]) < vertex_count by {
                if k >= 3 * i {
                    assert(k == 3 * i || k == 3 * i + 1 || k == 3 * i + 2);
                }
            }
        }
        i = i + 1;
    }
    Some(tris)
}

} // verus!
