use crate::handle::Handle;
use crate::handles::{fits_in_place_of, ids_of, is_distinct, position_of, splice};
use crate::objects::{Cycle, Face, Region, Shell};
use vstd::prelude::*;

verus! {

impl Region {
    /// Update the exterior of the region
    pub fn update_exterior(&self, update: impl FnOnce(&Handle<Cycle>) -> Handle<Cycle>) -> (r:
        Region)
        requires
            update.requires((&self.exterior,)),
        ensures
            exists|n: Handle<Cycle>|
                #[trigger] update.ensures((&self.exterior,), n) && r.exterior@ == n@,
            r.interiors@ == self.interiors@,
            r.color == self.color,
    {
        let exterior = update(&self.exterior);
        Region::new(exterior, self.interiors.clone(), self.color)
    }

    /// Add the provided interiors to the region
    pub fn add_interiors(&self, interiors: Vec<Handle<Cycle>>) -> (r: Region)
        requires
            is_distinct(self.interiors@ + ids_of(interiors@)),
        ensures
            r.exterior@ == self.exterior@,
            r.interiors@ == self.interiors@ + ids_of(interiors@),
            r.color == self.color,
    {
        Region::new(self.exterior, self.interiors.extended(interiors), self.color)
    }

    /// Update an interior cycle of the region, in its place
    pub fn update_interior(
        &self,
        handle: &Handle<Cycle>,
        update: impl FnOnce(&Handle<Cycle>) -> Handle<Cycle>,
    ) -> (r: Region)
        requires
            self.interiors@.contains(handle@),
            update.requires((handle,)),
            forall|n: Handle<Cycle>|
                #[trigger] update.ensures((handle,), n) ==> n@ == handle@ || !self.interiors@.contains(
                    n@,
                ),
        ensures
            r.exterior@ == self.exterior@,
            exists|n: Handle<Cycle>|
                #[trigger] update.ensures((handle,), n) && r.interiors@ == self.interiors@.update(
                    position_of(self.interiors@, handle@),
                    n@,
                ),
            r.color == self.color,
    {
        let interiors = self.interiors.update(handle, update);
        Region::new(self.exterior, interiors, self.color)
    }

    /// Replace an interior cycle of the region by any number of cycles, in
    /// its place
    pub fn replace_interior(
        &self,
        handle: &Handle<Cycle>,
        replace: impl FnOnce(&Handle<Cycle>) -> Vec<Handle<Cycle>>,
    ) -> (r: Region)
        requires
            self.interiors@.contains(handle@),
            replace.requires((handle,)),
            forall|w: Vec<Handle<Cycle>>|
                #[trigger] replace.ensures((handle,), w) ==> fits_in_place_of(
                    self.interiors@,
                    handle@,
                    ids_of(w@),
                ),
        ensures
            r.exterior@ == self.exterior@,
            exists|w: Vec<Handle<Cycle>>|
                #[trigger] replace.ensures((handle,), w) && r.interiors@ == splice(
                    self.interiors@,
                    position_of(self.interiors@, handle@),
                    ids_of(w@),
                ),
            r.color == self.color,
    {
        let with = replace(handle);
        let ghost w = with;
        proof {
            crate::handles::lemma_ids_of(with@);
        }
        let interiors = match self.interiors.replace(handle, with) {
            Some(interiors) => interiors,
            None => {
                proof {
                    assert(false);
                }
                self.interiors.clone()
            },
        };
        assert(replace.ensures((handle,), w));
        Region::new(self.exterior, interiors, self.color)
    }
}

impl Shell {
    /// Add faces to the shell
    pub fn add_faces(&self, faces: Vec<Handle<Face>>) -> (r: Shell)
        requires
            is_distinct(self.faces@ + ids_of(faces@)),
        ensures
            r.faces@ == self.faces@ + ids_of(faces@),
    {
        Shell::new(self.faces.extended(faces))
    }

    /// Replace a face of the shell by any number of faces, in its place
    pub fn update_face(
        &self,
        handle: &Handle<Face>,
        update: impl FnOnce(&Handle<Face>) -> Vec<Handle<Face>>,
    ) -> (r: Shell)
        requires
            self.faces@.contains(handle@),
            update.requires((handle,)),
            forall|w: Vec<Handle<Face>>|
                #[trigger] update.ensures((handle,), w) ==> fits_in_place_of(
                    self.faces@,
                    handle@,
                    ids_of(w@),
                ),
        ensures
            exists|w: Vec<Handle<Face>>|
                #[trigger] update.ensures((handle,), w) && r.faces@ == splice(
                    self.faces@,
                    position_of(self.faces@, handle@),
                    ids_of(w@),
                ),
    {
        let with = update(handle);
        let ghost w = with;
        proof {
            crate::handles::lemma_ids_of(with@);
        }
        let faces = match self.faces.replace(handle, with) {
            Some(faces) => faces,
            None => {
                proof {
                    assert(false);
                }
                self.faces.clone()
            },
        };
        assert(update.ensures((handle,), w));
        Shell::new(faces)
    }

    /// Remove a face from the shell
    pub fn remove_face(&self, handle: &Handle<Face>) -> (r: Shell)
        ensures
            !self.faces@.contains(handle@) ==> r.faces@ == self.faces@,
            self.faces@.contains(handle@) ==> r.faces@ == splice(
                self.faces@,
                position_of(self.faces@, handle@),
                Seq::empty(),
            ),
    {
        Shell::new(self.faces.without(handle))
    }
}

} // verus!
