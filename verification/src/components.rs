use vstd::prelude::*;

verus! {

/// The id of a component type: its position in the component registry, or
/// `usize::MAX` until the registry has been initialised.
#[derive(Clone, Copy, PartialEq, Eq, Structural)]
pub struct ComponentId {
    pub(crate) id: usize,
}

impl View for ComponentId {
    type V = usize;

    closed spec fn view(&self) -> usize {
        self.id
    }
}

impl ComponentId {
    /// The id a component has before `ecs_init` assigns it one.
    pub fn invalid() -> (r: ComponentId)
        ensures
            r@ == usize::MAX,
    {
        ComponentId { id: usize::MAX }
    }

    /// The id as a number.
    pub fn get_id(&self) -> (r: usize)
        ensures
            r == self@,
    {
        self.id
    }
}

/// What the registry records of a component type: the size and alignment of
/// its values and its id.
#[derive(Clone, Copy)]
pub struct ComponentInfo {
    pub size: usize,
    pub align: usize,
    pub id_ptr: ComponentId,
}

impl ComponentInfo {
    /// The record of a component type with the given layout and id.
    pub fn of(size: usize, align: usize, id_ptr: ComponentId) -> (r: Self)
        ensures
            r.size == size,
            r.align == align,
            r.id_ptr == id_ptr,
    {
        ComponentInfo { size, align, id_ptr }
    }
}

/// Gives every registered component the id of its position in the registry,
/// keeping each layout.
pub fn ecs_init(pool: &mut Vec<ComponentInfo>)
    ensures
        final(pool)@.len() == old(pool)@.len(),
        forall|i: int| 0 <= i < final(pool)@.len() ==> {
            &&& (#[trigger] final(pool)@[i]).id_ptr@ == i
            &&& final(pool)@[i].size == old(pool)@[i].size
            &&& final(pool)@[i].align == old(pool)@[i].align
        },
{
    let mut i: usize = 0;
    while i < pool.len()
        invariant
            i <= pool@.len(),
            pool@.len() == old(pool)@.len(),
            forall|j: int| 0 <= j < pool@.len() ==> {
                &&& (#[trigger] pool@[j]).size == old(pool)@[j].size
                &&& pool@[j].align == old(pool)@[j].align
                &&& j < i ==> pool@[j].id_ptr@ == j
            },
        decreases pool@.len() - i,
    {
        let info = pool[i];
        pool.set(i, ComponentInfo { size: info.size, align: info.align, id_ptr: ComponentId { id: i } });
        i = i + 1;
    }
}

} // verus!
