//! Voxels and their labels.

use vstd::prelude::*;
use vstd::std_specs::cmp::PartialEqSpecImpl;

verus! {

/// The label of a voxel as the contracts see it: the identity and the
/// property string, each as a sequence of characters.
pub struct VoxelView {
    pub id: Seq<char>,
    pub properties: Seq<char>,
}

/// One labelled cell of the lattice. The property string is carried along
/// and never parsed here.
#[derive(Debug)]
pub struct Voxel {
    pub id: String,
    pub properties: String,
}

impl View for Voxel {
    type V = VoxelView;

    open spec fn view(&self) -> VoxelView {
        VoxelView { id: self.id@, properties: self.properties@ }
    }
}

impl Voxel {
    pub fn new(id: String, properties: String) -> (voxel: Self)
        ensures
            voxel.id == id,
            voxel.properties == properties,
    {
        Self { id, properties }
    }
}

impl Clone for Voxel {
    fn clone(&self) -> (copy: Self)
        ensures
            copy == *self,
    {
        Self { id: self.id.clone(), properties: self.properties.clone() }
    }
}

/// Two voxels are equal when their identities are; the properties do not
/// count.
impl PartialEq for Voxel {
    fn eq(&self, other: &Self) -> (r: bool) {
        self.id == other.id
    }
}

impl PartialEqSpecImpl for Voxel {
    open spec fn obeys_eq_spec() -> bool {
        true
    }

    open spec fn eq_spec(&self, other: &Self) -> bool {
        self.id@ == other.id@
    }
}

} // verus!
