//! The faces of those who take part, laid over each other.
use vstd::prelude::*;

verus! {

/// How a face is laid: how far in front it is, and whether the next one overlaps it.
#[derive(Clone, Copy, Debug, PartialEq, Eq, Structural)]
pub struct FaceLayer {
    pub z_index: u8,
    pub overlapped: bool,
}

/// How the face at a place among so many is laid. The first is in front of all others; the number is
/// counted in a byte.
pub open spec fn face_layer(count: nat, ix: int) -> FaceLayer {
    FaceLayer { z_index: ((count - ix) % 256) as u8, overlapped: ix < count - 1 }
}

/// How all faces are laid.
pub fn layers(count: usize) -> (r: Vec<FaceLayer>)
    ensures
        r@ == Seq::new(count as nat, |ix: int| face_layer(count as nat, ix)),
{
    let mut r: Vec<FaceLayer> = Vec::new();
    let mut ix: usize = 0;
    while ix < count
        invariant
            ix <= count,
            r@.len() == ix,
            forall|k: int| 0 <= k < ix ==> r@[k] == face_layer(count as nat, k),
        decreases count - ix,
    {
        let level: usize = (count - ix) % 256;
        r.push(FaceLayer { z_index: level as u8, overlapped: ix < count - 1 });
        ix += 1;
    }
    assert(r@ =~= Seq::new(count as nat, |ix: int| face_layer(count as nat, ix)));
    r
}

/// As long as the levels can be counted, each face is in front of the next one.
pub proof fn earlier_face_is_in_front(count: nat, ix: int)
    requires
        count < 256,
        0 <= ix < count - 1,
    ensures
        face_layer(count, ix).z_index > face_layer(count, ix + 1).z_index,
        face_layer(count, ix).overlapped,
        !face_layer(count, count - 1).overlapped,
{
}

/// Of a pile that is not too high, faces lie as high as there are faces from them on, and all but the
/// last are overlapped.
pub proof fn faces_lie_in_order(count: nat, ix: int)
    requires
        count < 256,
        0 <= ix < count,
    ensures
        face_layer(count, ix).z_index == count - ix,
        face_layer(count, ix).overlapped <==> ix + 1 < count,
{
}

} // verus!
