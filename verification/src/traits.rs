//! What a server reports back to the runner.
use vstd::prelude::*;

use crate::string_map::{Pairs, StringMap};

verus! {

/// Position in world coordinates `[x, y, z]`.
pub type BlockPos = [i32; 3];

/// Server metadata.
#[derive(Debug, Clone)]
pub struct ServerInfo {
    pub minecraft_version: String,
}

/// The text in an optional string.
pub open spec fn opt_text(o: Option<String>) -> Option<Seq<char>> {
    match o {
        Some(s) => Some(s@),
        None => None,
    }
}

/// A copy of an optional string.
pub fn copy_opt_text(o: &Option<String>) -> (r: Option<String>)
    ensures
        opt_text(r) == opt_text(*o),
{
    match o {
        Some(s) => Some(s.clone()),
        None => None,
    }
}

/// The state of one entity as the server reports it. Coordinates and
/// rotation are the bit patterns of the `f64` and `f32` values.
#[derive(Debug, Clone)]
pub struct EntityState {
    pub entity_type: Option<String>,
    pub pos: Option<[u64; 3]>,
    pub rot: Option<[u32; 2]>,
    pub nbt: StringMap,
}

pub ghost struct EntityStateView {
    pub entity_type: Option<Seq<char>>,
    pub pos: Option<[u64; 3]>,
    pub rot: Option<[u32; 2]>,
    pub nbt: Pairs,
}

impl View for EntityState {
    type V = EntityStateView;

    open spec fn view(&self) -> EntityStateView {
        EntityStateView {
            entity_type: opt_text(self.entity_type),
            pos: self.pos,
            rot: self.rot,
            nbt: self.nbt@,
        }
    }
}

pub open spec fn state_views(s: Seq<EntityState>) -> Seq<EntityStateView> {
    s.map_values(|e: EntityState| e@)
}

impl Default for EntityState {
    fn default() -> (r: Self)
        ensures
            r@.entity_type is None,
            r@.pos is None,
            r@.rot is None,
            r@.nbt.len() == 0,
    {
        EntityState { entity_type: None, pos: None, rot: None, nbt: StringMap::new() }
    }
}

impl EntityState {
    /// A copy of this state.
    pub fn duplicate(&self) -> (r: Self)
        ensures
            r@ == self@,
    {
        EntityState {
            entity_type: copy_opt_text(&self.entity_type),
            pos: self.pos,
            rot: self.rot,
            nbt: self.nbt.duplicate(),
        }
    }
}

/// A copy of a list of entity states.
pub fn copy_states(s: &Vec<EntityState>) -> (r: Vec<EntityState>)
    ensures
        state_views(r@) == state_views(s@),
{
    let mut r: Vec<EntityState> = Vec::new();
    let mut i: usize = 0;
    while i < s.len()
        invariant
            i <= s.len(),
            r.len() == i,
            forall|j: int| 0 <= j < i ==> (#[trigger] r@[j])@ == s@[j]@,
        decreases s.len() - i,
    {
        r.push(s[i].duplicate());
        i = i + 1;
    }
    assert(state_views(r@) =~= state_views(s@));
    r
}

} // verus!
