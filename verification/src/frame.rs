//! What the renderer is asked to draw in one frame: one call for each
//! chromosome that has data, in the order of the offsets it is given.

use crate::coordinates::position_of;
use crate::gwas::{DatasetView, GwasDataChrs, VERTICES_PER_POINT};
use vstd::prelude::*;

verus! {

/// One draw call: the vertices of one chromosome, moved to the chromosome's
/// place in the global space.
pub struct DrawCall {
    /// The chromosome's name, which finds its vertex buffer and its
    /// parameter block.
    pub chromosome: String,
    /// The chromosome's start in the global space.
    pub offset: usize,
    /// How many vertices to draw.
    pub vertex_count: usize,
    /// Whether the target is cleared before this call.
    pub clear: bool,
}

/// A draw call in contracts.
pub ghost struct DrawView {
    pub chromosome: Seq<char>,
    pub offset: nat,
    pub vertex_count: nat,
    pub clear: bool,
}

impl View for DrawCall {
    type V = DrawView;

    open spec fn view(&self) -> DrawView {
        DrawView {
            chromosome: self.chromosome@,
            offset: self.offset as nat,
            vertex_count: self.vertex_count as nat,
            clear: self.clear,
        }
    }
}

/// The draw calls of a vector in contracts.
pub open spec fn call_views(calls: Seq<DrawCall>) -> Seq<DrawView> {
    Seq::new(calls.len(), |i: int| calls[i]@)
}

/// Named offsets in contracts.
pub open spec fn offset_views(offsets: Seq<(String, usize)>) -> Seq<(Seq<char>, nat)> {
    Seq::new(offsets.len(), |i: int| (offsets[i].0@, offsets[i].1 as nat))
}

/// The draw calls of one frame. The offsets are gone through in order; one
/// whose chromosome has a bucket with points gives a call, any other gives
/// none. The first call of the frame clears the target.
pub open spec fn frame_plan(data: DatasetView, offsets: Seq<(Seq<char>, nat)>) -> Seq<DrawView>
    decreases offsets.len(),
{
    if offsets.len() == 0 {
        Seq::empty()
    } else {
        let before = frame_plan(data, offsets.drop_last());
        let (name, offset) = offsets.last();
        match position_of(data.names, name) {
            Some(i) => if data.buckets[i].len() > 0 {
                before.push(
                    DrawView {
                        chromosome: name,
                        offset,
                        vertex_count: VERTICES_PER_POINT as nat * data.buckets[i].len(),
                        clear: before.len() == 0,
                    },
                )
            } else {
                before
            },
            None => before,
        }
    }
}

/// In a frame's plan the first call clears the target and no other does,
/// and there are no more calls than offsets.
pub proof fn lemma_frame_plan_clears_once(data: DatasetView, offsets: Seq<(Seq<char>, nat)>)
    ensures
        frame_plan(data, offsets).len() <= offsets.len(),
        forall|k: int|
            0 <= k < frame_plan(data, offsets).len() ==> (#[trigger] frame_plan(
                data,
                offsets,
            )[k]).clear == (k == 0),
    decreases offsets.len(),
{
    if offsets.len() > 0 {
        lemma_frame_plan_clears_once(data, offsets.drop_last());
    }
}

/// Plans the draw calls of one frame from the dataset and the offsets of
/// the chromosomes.
pub fn plan_frame(data: &GwasDataChrs, offsets: &[(String, usize)]) -> (calls: Vec<DrawCall>)
    ensures
        call_views(calls@) == frame_plan(data@, offset_views(offsets@)),
        calls@.len() <= offsets@.len(),
        forall|k: int| 0 <= k < calls@.len() ==> (#[trigger] calls@[k]).clear == (k == 0),
{
    let ghost all = offset_views(offsets@);
    let n: usize = offsets.len();
    let mut calls: Vec<DrawCall> = Vec::new();
    let mut k: usize = 0;
    proof {
        assert(all.take(0) =~= Seq::empty());
    }
    while k < n
        invariant
            n == offsets@.len(),
            all == offset_views(offsets@),
            0 <= k <= n,
            call_views(calls@) == frame_plan(data@, all.take(k as int)),
        decreases n - k,
    {
        proof {
            assert(all.take(k + 1).drop_last() =~= all.take(k as int));
            assert(all.take(k + 1).last() == all[k as int]);
        }
        let ghost before = call_views(calls@);
        match data.bucket(offsets[k].0.as_str()) {
            Some(bucket) => {
                let call = DrawCall {
                    chromosome: offsets[k].0.clone(),
                    offset: offsets[k].1,
                    vertex_count: bucket.vertex_count(),
                    clear: calls.len() == 0,
                };
                calls.push(call);
                proof {
                    assert(call_views(calls@) =~= before.push(call@));
                }
            },
            None => {},
        }
        k = k + 1;
    }
    proof {
        assert(all.take(n as int) =~= all);
        lemma_frame_plan_clears_once(data@, all);
        assert forall|k: int| 0 <= k < calls@.len() implies (#[trigger] calls@[k]).clear == (k
            == 0) by {
            assert(call_views(calls@)[k] == calls@[k]@);
        }
    }
    calls
}

} // verus!
