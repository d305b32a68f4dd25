//! A model of the global frame allocator and the per-frame metadata
//! array.
//!
//! The real allocator is an external collaborator; what the core
//! relies on is the reference counts it keeps per frame and the rule
//! that a frame goes back to the allocator only when its total
//! refcount reaches zero.

use vstd::prelude::*;

use crate::error::PfError;
use crate::page::Frame;

verus! {

/// Per-frame metadata: whether the frame is handed out, its total
/// reference count and its copy-on-write reference count.
#[derive(Clone, Copy, Debug, PartialEq, Eq, Structural)]
pub struct PageInfo {
    pub allocated: bool,
    pub refcount: usize,
    pub cow_refcount: usize,
}

/// The frame table: one `PageInfo` per physical frame, indexed by
/// frame number. Initialized at boot, never torn down.
pub struct FrameInfos {
    infos: Vec<PageInfo>,
}

impl FrameInfos {
    /// The metadata, indexed by frame number.
    pub closed spec fn infos_seq(self) -> Seq<PageInfo> {
        self.infos@
    }

    /// Whether the frame is currently handed out.
    pub open spec fn is_allocated(self, f: int) -> bool {
        0 <= f < self.infos_seq().len() && self.infos_seq()[f].allocated
    }

    /// Whether any frame is free to allocate.
    pub open spec fn has_free_frame(self) -> bool {
        exists|f: int| 0 <= f < self.infos_seq().len() && !(#[trigger] self.infos_seq()[f]).allocated
    }

    /// A table of `capacity` free frames.
    pub fn new(capacity: usize) -> (r: FrameInfos)
        ensures
            r.infos_seq().len() == capacity,
            forall|f: int| 0 <= f < capacity ==> #[trigger] r.infos_seq()[f] == (PageInfo {
                allocated: false,
                refcount: 0,
                cow_refcount: 0,
            }),
    {
        let mut infos: Vec<PageInfo> = Vec::new();
        let mut i: usize = 0;
        while i < capacity
            invariant
                i <= capacity,
                infos.len() == i,
                forall|f: int| 0 <= f < i ==> #[trigger] infos@[f] == (PageInfo {
                    allocated: false,
                    refcount: 0,
                    cow_refcount: 0,
                }),
            decreases capacity - i,
        {
            infos.push(PageInfo { allocated: false, refcount: 0, cow_refcount: 0 });
            i = i + 1;
        }
        FrameInfos { infos }
    }

    /// The metadata of an allocated frame, or nothing when the frame
    /// number is out of range or the frame is free.
    pub fn get_page_info(&self, frame: Frame) -> (r: Option<PageInfo>)
        ensures
            r == if self.is_allocated(frame.number as int) {
                Some(self.infos_seq()[frame.number as int])
            } else {
                None::<PageInfo>
            },
    {
        if frame.number < self.infos.len() {
            let info = self.infos[frame.number];
            if info.allocated {
                Some(info)
            } else {
                None
            }
        } else {
            None
        }
    }

    /// Hand out the lowest free frame, with both refcounts zero, or
    /// nothing when every frame is taken.
    pub fn allocate_frames(&mut self) -> (r: Option<Frame>)
        ensures
            final(self).infos_seq().len() == old(self).infos_seq().len(),
            r.is_some() <==> old(self).has_free_frame(),
            r is None ==> final(self).infos_seq() == old(self).infos_seq(),
            r matches Some(f) ==> f.number < old(self).infos_seq().len() && !old(
                self,
            ).infos_seq()[f.number as int].allocated && final(self).infos_seq() == old(
                self,
            ).infos_seq().update(
                f.number as int,
                PageInfo { allocated: true, refcount: 0, cow_refcount: 0 },
            ),
    {
        let mut i: usize = 0;
        while i < self.infos.len()
            invariant
                self.infos_seq() == old(self).infos_seq(),
                i <= self.infos_seq().len(),
                forall|f: int| 0 <= f < i ==> (#[trigger] self.infos_seq()[f]).allocated,
            decreases self.infos.len() - i,
        {
            if !self.infos[i].allocated {
                proof {
                    assert(!(#[trigger] self.infos_seq()[i as int]).allocated);
                }
                self.infos[i] = PageInfo { allocated: true, refcount: 0, cow_refcount: 0 };
                return Some(Frame { number: i });
            }
            i = i + 1;
        }
        None
    }

    /// Give a frame back to the allocator.
    pub fn deallocate_frames(&mut self, frame: Frame)
        requires
            old(self).is_allocated(frame.number as int),
        ensures
            final(self).infos_seq() == old(self).infos_seq().update(
                frame.number as int,
                PageInfo { allocated: false, refcount: 0, cow_refcount: 0 },
            ),
    {
        self.infos[frame.number] = PageInfo { allocated: false, refcount: 0, cow_refcount: 0 };
    }

    /// Take one reference on an allocated frame; a copy-on-write
    /// reference counts on both counters.
    pub fn add_ref(&mut self, frame: Frame, cow: bool)
        requires
            old(self).is_allocated(frame.number as int),
            old(self).infos_seq()[frame.number as int].refcount < usize::MAX,
            cow ==> old(self).infos_seq()[frame.number as int].cow_refcount < usize::MAX,
        ensures
            final(self).infos_seq() == old(self).infos_seq().update(
                frame.number as int,
                PageInfo {
                    allocated: true,
                    refcount: (old(self).infos_seq()[frame.number as int].refcount + 1) as usize,
                    cow_refcount: if cow {
                        (old(self).infos_seq()[frame.number as int].cow_refcount + 1) as usize
                    } else {
                        old(self).infos_seq()[frame.number as int].cow_refcount
                    },
                },
            ),
    {
        let info = self.infos[frame.number];
        self.infos[frame.number] = PageInfo {
            allocated: true,
            refcount: info.refcount + 1,
            cow_refcount: if cow {
                info.cow_refcount + 1
            } else {
                info.cow_refcount
            },
        };
    }

    /// Drop one reference from an allocated frame; when the total
    /// refcount reaches zero the frame goes back to the allocator, and
    /// `true` is returned.
    pub fn remove_ref(&mut self, frame: Frame, cow: bool) -> (r: bool)
        requires
            old(self).is_allocated(frame.number as int),
            old(self).infos_seq()[frame.number as int].refcount > 0,
            cow ==> old(self).infos_seq()[frame.number as int].cow_refcount > 0,
        ensures
            r == (old(self).infos_seq()[frame.number as int].refcount == 1),
            final(self).infos_seq() == old(self).infos_seq().update(
                frame.number as int,
                if old(self).infos_seq()[frame.number as int].refcount == 1 {
                    PageInfo { allocated: false, refcount: 0, cow_refcount: 0 }
                } else {
                    PageInfo {
                        allocated: true,
                        refcount: (old(self).infos_seq()[frame.number as int].refcount
                            - 1) as usize,
                        cow_refcount: if cow {
                            (old(self).infos_seq()[frame.number as int].cow_refcount - 1) as usize
                        } else {
                            old(self).infos_seq()[frame.number as int].cow_refcount
                        },
                    }
                },
            ),
    {
        let info = self.infos[frame.number];
        if info.refcount == 1 {
            self.infos[frame.number] = PageInfo {
                allocated: false,
                refcount: 0,
                cow_refcount: 0,
            };
            true
        } else {
            self.infos[frame.number] = PageInfo {
                allocated: true,
                refcount: info.refcount - 1,
                cow_refcount: if cow {
                    info.cow_refcount - 1
                } else {
                    info.cow_refcount
                },
            };
            false
        }
    }

    /// Allocate a frame and give it one owner: both refcounts start at
    /// one. Fails with `Oom` exactly when no frame is free.
    pub fn init_frame(&mut self) -> (r: Result<Frame, PfError>)
        ensures
            final(self).infos_seq().len() == old(self).infos_seq().len(),
            r is Ok <==> old(self).has_free_frame(),
            r matches Err(e) ==> e == PfError::Oom && final(self).infos_seq() == old(
                self,
            ).infos_seq(),
            r matches Ok(f) ==> f.number < old(self).infos_seq().len() && !old(
                self,
            ).infos_seq()[f.number as int].allocated && final(self).infos_seq() == old(
                self,
            ).infos_seq().update(
                f.number as int,
                PageInfo { allocated: true, refcount: 1, cow_refcount: 1 },
            ),
    {
        let frame = match self.allocate_frames() {
            Some(f) => f,
            None => {
                return Err(PfError::Oom);
            },
        };
        self.infos[frame.number] = PageInfo { allocated: true, refcount: 1, cow_refcount: 1 };
        proof {
            assert(self.infos@ =~= old(self).infos@.update(
                frame.number as int,
                PageInfo { allocated: true, refcount: 1, cow_refcount: 1 },
            ));
        }
        Ok(frame)
    }
}

} // verus!
