//! What cannot be found out from a binary alone.

use vstd::prelude::*;

verus! {

/// Parts of `.rodata` by their texts.
pub open spec fn subsection_views(list: Seq<(u64, u64, String)>) -> Seq<(u64, u64, Seq<char>)> {
    list.map_values(|s: (u64, u64, String)| (s.0, s.1, s.2@))
}

/// Knowledge about a certain binary.
///
/// What is known does not change: a method gives the same answer whenever it is asked the same.
/// The specification functions stand for these answers. They need not be given by who implements
/// the trait: unless they are, each is some function of the value and of what is asked.
pub trait Hacks {
    /// What [`Hacks::get_jump_tables`] gives.
    closed spec fn jump_tables(&self) -> Seq<(u64, usize)> {
        arbitrary::<spec_fn(&Self) -> Seq<(u64, usize)>>()(self)
    }

    /// What [`Hacks::get_object_path`] gives.
    closed spec fn object_path(&self, object_name: Seq<char>) -> Seq<char> {
        arbitrary::<spec_fn(&Self, Seq<char>) -> Seq<char>>()(self, object_name)
    }

    /// What [`Hacks::get_rodata_subsections`] gives.
    closed spec fn rodata_subsections(&self) -> Seq<(u64, u64, Seq<char>)> {
        arbitrary::<spec_fn(&Self) -> Seq<(u64, u64, Seq<char>)>>()(self)
    }

    /// The address of each jump table and the number of its entries.
    fn get_jump_tables(&self) -> (r: Vec<(u64, usize)>)
        ensures
            r@ == self.jump_tables(),
    ;

    /// Where the file of an object is put.
    fn get_object_path(&self, object_name: &str) -> (r: String)
        ensures
            r@ == self.object_path(object_name@),
    ;

    /// The parts of `.rodata` that have a section of their own: start, end and name.
    fn get_rodata_subsections(&self) -> (r: Vec<(u64, u64, String)>)
        ensures
            subsection_views(r@) == self.rodata_subsections(),
    ;
}

} // verus!
