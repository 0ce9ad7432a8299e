//! The address space of a program: one copy-on-write area for each segment
//! that the program loads.

use vstd::prelude::*;
use crate::addr::VirtAddr;
use crate::context::{MemoryContext, MemoryError, State};
use crate::handler::cow::CowMemoryHandler;
use crate::handler::{MemoryHandler, Policy};
use crate::memory_set::{Area, MemoryArea, MemoryAttr, MemorySet, Space, SpaceStep};

verus! {

/// A segment of a program image that is to be loaded: where it goes, how
/// many bytes it takes, and whether it holds code.
#[derive(Debug, Clone, Copy, PartialEq, Eq, Structural)]
pub struct Segment {
    pub virt_addr: VirtAddr,
    pub mem_size: usize,
    pub execute: bool,
}

impl Segment {
    /// The segment ends within the address space.
    pub open spec fn wf(self) -> bool {
        self.virt_addr + self.mem_size <= usize::MAX
    }

    /// The area that holds the segment: unnamed, copy-on-write, with the
    /// attributes of user memory.
    pub open spec fn area(self) -> Area {
        Area {
            start: self.virt_addr,
            end: (self.virt_addr + self.mem_size) as usize,
            policy: Policy::CopyOnWrite(CowMemoryHandler { flags: attr_from(self.execute) }),
            name: Seq::<char>::empty(),
        }
    }
}

/// The attributes of user memory, executable if `execute`.
pub open spec fn attr_from(execute: bool) -> MemoryAttr {
    MemoryAttr { user: true, readonly: false, execute }
}

/// Pushes the areas of the segments from index `i` on, in order, and stops
/// at the first that fails.
pub open spec fn push_segments(space: Space, s: State, segments: Seq<Segment>, i: int) -> SpaceStep
    decreases segments.len() - i,
{
    if i < 0 || i >= segments.len() {
        (s, space, Ok(()))
    } else {
        let (s1, pushed, r) = space.push(s, segments[i].area());
        match r {
            Err(e) => (s1, pushed, Err(e)),
            Ok(_) => push_segments(pushed, s1, segments, i + 1),
        }
    }
}

/// The attributes of a segment of user memory: user access, writable, and
/// executable if the segment holds code.
pub fn memory_attr_from(execute: bool) -> (attr: MemoryAttr)
    ensures
        attr == attr_from(execute),
{
    let mut flags = MemoryAttr::default().user();
    if execute {
        flags = flags.execute();
    }
    flags
}

/// Builds the address space of a program: a new memory set with the kernel's
/// mappings, into which one copy-on-write area is pushed for each segment, in
/// order. Stops at the first segment that cannot be pushed.
pub fn memory_set_from(ctx: &mut MemoryContext, segments: &Vec<Segment>) -> (built: Result<
    MemorySet,
    MemoryError,
>)
    requires
        old(ctx).wf(),
        forall|i: int| 0 <= i < segments@.len() ==> (#[trigger] segments@[i]).wf(),
    ensures
        final(ctx).wf(),
        ({
            let table = old(ctx)@.tables.len() as usize;
            let (s, space, r) = push_segments(
                Space { areas: Seq::<Area>::empty(), table },
                old(ctx)@.new_table(false),
                segments@,
                0,
            );
            &&& final(ctx)@ == s
            &&& match built {
                Ok(set) => r is Ok && set@ == space && set.wf(final(ctx)),
                Err(e) => r == Err::<(), MemoryError>(e),
            }
        }),
{
    let mut set = MemorySet::new(ctx);
    let ghost start = ctx@;
    let ghost empty = set@;
    let mut i: usize = 0;
    while i < segments.len()
        invariant
            i <= segments@.len(),
            ctx.wf(),
            set.wf(ctx),
            forall|k: int| 0 <= k < segments@.len() ==> (#[trigger] segments@[k]).wf(),
            start == old(ctx)@.new_table(false),
            empty == (Space {
                areas: Seq::<Area>::empty(),
                table: old(ctx)@.tables.len() as usize,
            }),
            push_segments(set@, ctx@, segments@, i as int) == push_segments(
                empty,
                start,
                segments@,
                0,
            ),
        decreases segments@.len() - i,
    {
        let segment = segments[i];
        assert(segments@[i as int].wf());
        let area = MemoryArea::new(
            segment.virt_addr,
            segment.virt_addr + segment.mem_size,
            MemoryHandler::CopyOnWrite(CowMemoryHandler::new(memory_attr_from(segment.execute))),
            "",
        );
        proof {
            reveal_strlit("");
        }
        assert(area@ =~= segment.area());
        match set.push(ctx, area) {
            Err(e) => {
                return Err(e);
            },
            Ok(_) => {},
        }
        i += 1;
    }
    Ok(set)
}

} // verus!
