//! The window manager: the owner of all viewports.
//!
//! A [`Viewport`] pairs one native window (named by its identifier; the
//! host event loop owns the real handle) with one presentation [`Outlet`]
//! and its per-window flags.  The [`Manager`] keys viewports by native
//! window identifier; identifiers are unique by construction of the
//! windowing layer, and the manager's contracts are stated over the map
//! its entry list denotes.
//!
//! The host feeds window-system events (`on_moved`, `on_resized`,
//! `set_focus`) into the manager, so that the model state the drain and
//! the cache read agrees with the last reported native state.

use vstd::prelude::*;
use vstd::std_specs::vec::vec_index_mut;

use crate::assoc::{has_key, index_of, lemma_map_of_dom, lemma_map_of_index, lemma_map_of_no_key,
    lemma_map_of_push, lemma_map_of_remove, lemma_map_of_set, map_of, unique_keys};
use crate::geom::{Pos, Size};
use crate::outlet::{FramePlan, Outlet};

verus! {

/// One native window together with its presentation state and flags.
#[derive(Clone, Copy, Debug, PartialEq, Eq, Structural)]
pub struct Viewport {
    /// Last reported outer position, in physical pixels.
    pub pos: Pos,
    /// Last reported inner size, in physical pixels.
    pub size: Size,
    /// Whether the window was last reported focused.
    pub focus: bool,
    /// Whether the window is minimized (zero-area windows count).
    pub minimized: bool,
    /// Whether the render step still owes this window a frame.
    pub redraw_pending: bool,
    /// Presentation state of the window's surface.
    pub outlet: Outlet,
}

/// A freshly spawned native window, as the host reports it: its new
/// identifier and its initial geometry.
#[derive(Clone, Copy, Debug, PartialEq, Eq, Structural)]
pub struct NewWindow {
    pub wid: u64,
    pub pos: Pos,
    pub size: Size,
}

impl Viewport {
    /// State of a viewport the moment its native window appears: focused,
    /// not minimized, nothing pending, and only the bare surface.
    pub open spec fn spec_initial(pos: Pos, size: Size) -> Viewport {
        Viewport {
            pos,
            size,
            focus: true,
            minimized: false,
            redraw_pending: false,
            outlet: Outlet::Surface,
        }
    }

    /// A viewport is well formed when its outlet is at rest.
    pub open spec fn wf(self) -> bool {
        self.outlet.wf()
    }

    pub fn initial(pos: Pos, size: Size) -> (r: Viewport)
        ensures
            r == Viewport::spec_initial(pos, size),
    {
        Viewport {
            pos,
            size,
            focus: true,
            minimized: false,
            redraw_pending: false,
            outlet: Outlet::new(),
        }
    }
}

/// Whether some entry with a bare-surface outlet carries this identifier.
pub open spec fn surface_entry(s: Seq<(u64, Viewport)>, w: u64) -> bool {
    exists|i: int| 0 <= i < s.len() && (#[trigger] s[i]).1.outlet is Surface && s[i].0 == w
}

/// Whether some entry owing a redraw carries this identifier.
pub open spec fn pending_entry(s: Seq<(u64, Viewport)>, w: u64) -> bool {
    exists|j: int| 0 <= j < s.len() && (#[trigger] s[j]).1.redraw_pending && s[j].0 == w
}

/// The identifiers of the entries owing a redraw, in entry order.
pub open spec fn redraw_ids(s: Seq<(u64, Viewport)>) -> Seq<u64>
    decreases s.len(),
{
    if s.len() == 0 {
        Seq::empty()
    } else if s.last().1.redraw_pending {
        redraw_ids(s.drop_last()).push(s.last().0)
    } else {
        redraw_ids(s.drop_last())
    }
}

/// Every reported identifier comes from an entry owing a redraw, and
/// there are never more identifiers than entries.
proof fn lemma_redraw_ids_members(s: Seq<(u64, Viewport)>)
    ensures
        redraw_ids(s).len() <= s.len(),
        forall|a: int|
            0 <= a < redraw_ids(s).len() ==> pending_entry(s, #[trigger] redraw_ids(s)[a]),
    decreases s.len(),
{
    if s.len() > 0 {
        let t = s.drop_last();
        lemma_redraw_ids_members(t);
        assert forall|a: int| 0 <= a < redraw_ids(s).len() implies pending_entry(
            s,
            #[trigger] redraw_ids(s)[a],
        ) by {
            if s.last().1.redraw_pending && a == redraw_ids(s).len() - 1 {
                assert(s[s.len() - 1].1.redraw_pending && s[s.len() - 1].0 == redraw_ids(s)[a]);
            } else {
                assert(redraw_ids(s)[a] == redraw_ids(t)[a]);
                assert(pending_entry(t, redraw_ids(t)[a]));
                let j = choose|j: int|
                    0 <= j < t.len() && (#[trigger] t[j]).1.redraw_pending && t[j].0 == redraw_ids(
                        t,
                    )[a];
                assert(t[j] == s[j]);
                assert(s[j].1.redraw_pending && s[j].0 == redraw_ids(s)[a]);
            }
        }
    }
}

/// With unique identifiers, no identifier is reported twice.
proof fn lemma_redraw_ids_distinct(s: Seq<(u64, Viewport)>)
    requires
        unique_keys(s),
    ensures
        forall|a: int, b: int|
            0 <= a < b < redraw_ids(s).len() ==> #[trigger] redraw_ids(s)[a] != #[trigger] redraw_ids(
                s,
            )[b],
    decreases s.len(),
{
    if s.len() > 0 {
        let t = s.drop_last();
        assert forall|p: int, q: int| 0 <= p < q < t.len() implies (#[trigger] t[p]).0 != (
        #[trigger] t[q]).0 by {
            assert(t[p] == s[p]);
            assert(t[q] == s[q]);
            assert(s[p].0 != s[q].0);
        }
        lemma_redraw_ids_distinct(t);
        lemma_redraw_ids_members(t);
        assert forall|a: int, b: int|
            0 <= a < b < redraw_ids(s).len() implies #[trigger] redraw_ids(s)[a]
            != #[trigger] redraw_ids(s)[b] by {
            if s.last().1.redraw_pending && b == redraw_ids(s).len() - 1 {
                assert(redraw_ids(s)[a] == redraw_ids(t)[a]);
                assert(pending_entry(t, redraw_ids(t)[a]));
                let j = choose|j: int|
                    0 <= j < t.len() && (#[trigger] t[j]).1.redraw_pending && t[j].0 == redraw_ids(
                        t,
                    )[a];
                assert(t[j] == s[j]);
                assert(s[j].0 != s[s.len() - 1].0);
                assert(redraw_ids(s)[b] == s[s.len() - 1].0);
            } else {
                assert(redraw_ids(s)[a] == redraw_ids(t)[a]);
                assert(redraw_ids(s)[b] == redraw_ids(t)[b]);
            }
        }
    }
}

/// Owns the viewport collection, keyed by native window identifier.
pub struct Manager {
    windows: Vec<(u64, Viewport)>,
}

impl View for Manager {
    type V = Map<u64, Viewport>;

    closed spec fn view(&self) -> Map<u64, Viewport> {
        map_of(self.windows@)
    }
}

impl Manager {
    /// The entry list behind the map view, in insertion order.
    pub closed spec fn entries(self) -> Seq<(u64, Viewport)> {
        self.windows@
    }

    /// Identifiers are pairwise distinct and every viewport is at rest.
    pub closed spec fn wf(self) -> bool {
        &&& unique_keys(self.windows@)
        &&& forall|i: int| 0 <= i < self.windows@.len() ==> (#[trigger] self.windows@[i]).1.wf()
    }

    /// An empty manager, before any native window exists.
    pub fn new() -> (m: Manager)
        ensures
            m.wf(),
            m@ == Map::<u64, Viewport>::empty(),
            m.entries().len() == 0,
    {
        let m = Manager { windows: Vec::new() };
        proof {
            assert(m@ =~= Map::<u64, Viewport>::empty());
        }
        m
    }

    /// A manager owning just the program's initial window.
    pub fn from_parts(first: NewWindow) -> (m: Manager)
        ensures
            m.wf(),
            m@ == Map::<u64, Viewport>::empty().insert(
                first.wid,
                Viewport::spec_initial(first.pos, first.size),
            ),
            m.entries().len() == 1,
    {
        let mut m = Manager::new();
        m.add_window(first);
        m
    }

    /// Insert the viewport for a freshly spawned native window.
    ///
    /// A duplicate identifier breaks the windowing layer's uniqueness
    /// guarantee and is a programming error, so it is ruled out here.
    pub fn add_window(&mut self, w: NewWindow)
        requires
            old(self).wf(),
            !old(self)@.contains_key(w.wid),
        ensures
            final(self).wf(),
            final(self)@ == old(self)@.insert(w.wid, Viewport::spec_initial(w.pos, w.size)),
            final(self).entries() == old(self).entries().push(
                (w.wid, Viewport::spec_initial(w.pos, w.size)),
            ),
            final(self)@.contains_key(w.wid),
    {
        let vp = Viewport::initial(w.pos, w.size);
        proof {
            lemma_map_of_dom(self.windows@);
            assert(!has_key(self.windows@, w.wid));
            lemma_map_of_push(self.windows@, w.wid, vp);
        }
        self.windows.push((w.wid, vp));
        proof {
            let s = self.windows@;
            let t = old(self).entries();
            assert(s == t.push((w.wid, vp)));
            assert forall|p: int, q: int| 0 <= p < q < s.len() implies (#[trigger] s[p]).0 != (
            #[trigger] s[q]).0 by {
                if q == s.len() - 1 {
                    assert(s[p] == t[p]);
                    assert(t[p].0 != w.wid);
                } else {
                    assert(s[p] == t[p]);
                    assert(s[q] == t[q]);
                }
            }
            assert forall|i: int| 0 <= i < s.len() implies (#[trigger] s[i]).1.wf() by {
                if i < t.len() {
                    assert(s[i] == t[i]);
                    assert(t[i].1.wf());
                } else {
                    assert(s[i] == (w.wid, vp));
                }
            }
            assert(s[s.len() - 1].0 == w.wid);
            lemma_map_of_dom(s);
        }
    }

    /// Remove and drop the viewport of a destroyed window, surface and all.
    ///
    /// Destroy is only ever issued for identifiers the proxy created, so an
    /// unknown identifier is a programming error and is ruled out here.
    pub fn destroy(&mut self, wid: u64)
        requires
            old(self).wf(),
            old(self)@.contains_key(wid),
        ensures
            final(self).wf(),
            final(self)@ == old(self)@.remove(wid),
            !final(self)@.contains_key(wid),
            final(self).entries().len() == old(self).entries().len() - 1,
    {
        proof {
            lemma_map_of_dom(self.windows@);
        }
        let idx = match index_of(&self.windows, wid) {
            Some(i) => i,
            None => {
                proof {
                    assert(false);
                }
                0
            },
        };
        proof {
            lemma_map_of_remove(self.windows@, idx as int);
        }
        self.windows.remove(idx);
        proof {
            lemma_map_of_dom(self.windows@);
        }
    }

    /// Look a viewport up; absent on a miss.
    pub fn viewport(&self, wid: u64) -> (r: Option<Viewport>)
        requires
            self.wf(),
        ensures
            r.is_some() == self@.contains_key(wid),
            r.is_some() ==> r.unwrap() == self@[wid],
    {
        proof {
            lemma_map_of_dom(self.windows@);
        }
        match index_of(&self.windows, wid) {
            Some(i) => {
                proof {
                    lemma_map_of_index(self.windows@, i as int);
                }
                Some(self.windows[i].1)
            },
            None => None,
        }
    }

    /// All identifiers, in entry order.
    pub fn window_ids(&self) -> (r: Vec<u64>)
        ensures
            r@.len() == self.entries().len(),
            forall|i: int| 0 <= i < r@.len() ==> r@[i] == (#[trigger] self.entries()[i]).0,
    {
        let n: usize = self.windows.len();
        let mut r: Vec<u64> = Vec::new();
        let mut i: usize = 0;
        while i < n
            invariant
                i <= n,
                n == self.windows@.len(),
                r@.len() == i,
                forall|j: int| 0 <= j < i ==> r@[j] == (#[trigger] self.windows@[j]).0,
            decreases n - i,
        {
            r.push(self.windows[i].0);
            i = i + 1;
        }
        r
    }

    /// Replace one viewport's state, keeping its identifier.
    fn put(&mut self, idx: usize, vp: Viewport)
        requires
            old(self).wf(),
            idx < old(self).entries().len(),
            vp.wf(),
        ensures
            final(self).wf(),
            final(self)@ == old(self)@.insert(old(self).entries()[idx as int].0, vp),
            final(self).entries() == old(self).entries().update(
                idx as int,
                (old(self).entries()[idx as int].0, vp),
            ),
    {
        proof {
            lemma_map_of_set(self.windows@, idx as int, vp);
        }
        let key: u64 = self.windows[idx].0;
        *vec_index_mut(&mut self.windows, idx) = (key, vp);
    }

    /// Record the focus flag the windowing layer reported.
    pub fn set_focus(&mut self, wid: u64, focus: bool)
        requires
            old(self).wf(),
            old(self)@.contains_key(wid),
        ensures
            final(self).wf(),
            final(self)@ == old(self)@.insert(wid, Viewport { focus, ..old(self)@[wid] }),
    {
        proof {
            lemma_map_of_dom(self.windows@);
        }
        let idx = match index_of(&self.windows, wid) {
            Some(i) => i,
            None => {
                proof {
                    assert(false);
                }
                0
            },
        };
        proof {
            lemma_map_of_index(self.windows@, idx as int);
        }
        let mut vp = self.windows[idx].1;
        vp.focus = focus;
        self.put(idx, vp);
    }

    /// Record that the window was moved.
    pub fn on_moved(&mut self, wid: u64, pos: Pos)
        requires
            old(self).wf(),
            old(self)@.contains_key(wid),
        ensures
            final(self).wf(),
            final(self)@ == old(self)@.insert(wid, Viewport { pos, ..old(self)@[wid] }),
    {
        proof {
            lemma_map_of_dom(self.windows@);
        }
        let idx = match index_of(&self.windows, wid) {
            Some(i) => i,
            None => {
                proof {
                    assert(false);
                }
                0
            },
        };
        proof {
            lemma_map_of_index(self.windows@, idx as int);
        }
        let mut vp = self.windows[idx].1;
        vp.pos = pos;
        self.put(idx, vp);
    }

    /// Record that the window was resized: the new size is stored, a
    /// zero-area size counts as minimized, and the swap target is dropped
    /// so the next frame rebuilds it at the new size.
    pub fn on_resized(&mut self, wid: u64, size: Size)
        requires
            old(self).wf(),
            old(self)@.contains_key(wid),
        ensures
            final(self).wf(),
            final(self)@ == old(self)@.insert(
                wid,
                Viewport {
                    size,
                    minimized: size.is_zero_area(),
                    outlet: Outlet::Surface,
                    ..old(self)@[wid]
                },
            ),
    {
        proof {
            lemma_map_of_dom(self.windows@);
        }
        let idx = match index_of(&self.windows, wid) {
            Some(i) => i,
            None => {
                proof {
                    assert(false);
                }
                0
            },
        };
        proof {
            lemma_map_of_index(self.windows@, idx as int);
        }
        let mut vp = self.windows[idx].1;
        vp.size = size;
        vp.minimized = size.width == 0 || size.height == 0;
        vp.outlet.drop_swap_chain();
        self.put(idx, vp);
    }

    /// Whether a window with this identifier is live.
    pub fn contains_window(&self, wid: u64) -> (r: bool)
        ensures
            r == self@.contains_key(wid),
    {
        proof {
            lemma_map_of_dom(self.windows@);
        }
        index_of(&self.windows, wid).is_some()
    }

    /// Apply a drained resize command: store the commanded size and drop
    /// the swap target so the next frame rebuilds it at that size.  The
    /// minimized flag is left to the windowing layer's own resize report.
    pub fn apply_set_size(&mut self, wid: u64, size: Size)
        requires
            old(self).wf(),
            old(self)@.contains_key(wid),
        ensures
            final(self).wf(),
            final(self)@ == old(self)@.insert(
                wid,
                Viewport { size, outlet: Outlet::Surface, ..old(self)@[wid] },
            ),
    {
        proof {
            lemma_map_of_dom(self.windows@);
        }
        let idx = match index_of(&self.windows, wid) {
            Some(i) => i,
            None => {
                proof {
                    assert(false);
                }
                0
            },
        };
        proof {
            lemma_map_of_index(self.windows@, idx as int);
        }
        let mut vp = self.windows[idx].1;
        vp.size = size;
        vp.outlet.drop_swap_chain();
        self.put(idx, vp);
    }

    /// Drop one window's swap target without touching its surface.
    pub fn make_window_dirty(&mut self, wid: u64)
        requires
            old(self).wf(),
            old(self)@.contains_key(wid),
        ensures
            final(self).wf(),
            final(self)@ == old(self)@.insert(
                wid,
                Viewport { outlet: Outlet::Surface, ..old(self)@[wid] },
            ),
    {
        proof {
            lemma_map_of_dom(self.windows@);
        }
        let idx = match index_of(&self.windows, wid) {
            Some(i) => i,
            None => {
                proof {
                    assert(false);
                }
                0
            },
        };
        proof {
            lemma_map_of_index(self.windows@, idx as int);
        }
        let mut vp = self.windows[idx].1;
        vp.outlet.drop_swap_chain();
        self.put(idx, vp);
    }

    /// Record that the host bound a swap target of the given size for this
    /// window.
    pub fn install_swap_target(&mut self, wid: u64, size: Size)
        requires
            old(self).wf(),
            old(self)@.contains_key(wid),
        ensures
            final(self).wf(),
            final(self)@ == old(self)@.insert(
                wid,
                Viewport { outlet: Outlet::spec_install(size), ..old(self)@[wid] },
            ),
    {
        proof {
            lemma_map_of_dom(self.windows@);
        }
        let idx = match index_of(&self.windows, wid) {
            Some(i) => i,
            None => {
                proof {
                    assert(false);
                }
                0
            },
        };
        proof {
            lemma_map_of_index(self.windows@, idx as int);
        }
        let mut vp = self.windows[idx].1;
        vp.outlet.install_swap_target(size);
        self.put(idx, vp);
    }

    /// Plan one frame for this window: skip it while minimized, build the
    /// swap target first if only the surface exists, else acquire.
    pub fn frame_plan(&self, wid: u64) -> (r: FramePlan)
        requires
            self.wf(),
            self@.contains_key(wid),
        ensures
            r == self@[wid].outlet.spec_frame_plan(self@[wid].minimized, self@[wid].size),
    {
        proof {
            lemma_map_of_dom(self.windows@);
        }
        let idx = match index_of(&self.windows, wid) {
            Some(i) => i,
            None => {
                proof {
                    assert(false);
                }
                0
            },
        };
        proof {
            lemma_map_of_index(self.windows@, idx as int);
        }
        let vp = &self.windows[idx].1;
        vp.outlet.frame_plan(vp.minimized, vp.size)
    }

    /// The render step is about to produce this window's frame; it no
    /// longer owes one.
    pub fn finish_draw(&mut self, wid: u64)
        requires
            old(self).wf(),
            old(self)@.contains_key(wid),
        ensures
            final(self).wf(),
            final(self)@ == old(self)@.insert(
                wid,
                Viewport { redraw_pending: false, ..old(self)@[wid] },
            ),
    {
        proof {
            lemma_map_of_dom(self.windows@);
        }
        let idx = match index_of(&self.windows, wid) {
            Some(i) => i,
            None => {
                proof {
                    assert(false);
                }
                0
            },
        };
        proof {
            lemma_map_of_index(self.windows@, idx as int);
        }
        let mut vp = self.windows[idx].1;
        vp.redraw_pending = false;
        self.put(idx, vp);
    }

    /// Mark one window as owing a redraw.
    pub fn complete_redraw(&mut self, wid: u64)
        requires
            old(self).wf(),
            old(self)@.contains_key(wid),
        ensures
            final(self).wf(),
            final(self)@ == old(self)@.insert(
                wid,
                Viewport { redraw_pending: true, ..old(self)@[wid] },
            ),
    {
        proof {
            lemma_map_of_dom(self.windows@);
        }
        let idx = match index_of(&self.windows, wid) {
            Some(i) => i,
            None => {
                proof {
                    assert(false);
                }
                0
            },
        };
        proof {
            lemma_map_of_index(self.windows@, idx as int);
        }
        let mut vp = self.windows[idx].1;
        vp.redraw_pending = true;
        self.put(idx, vp);
    }

    /// Mark every window as owing a redraw.
    pub fn request_redraws(&mut self)
        requires
            old(self).wf(),
        ensures
            final(self).wf(),
            final(self).entries().len() == old(self).entries().len(),
            forall|i: int|
                0 <= i < final(self).entries().len() ==> #[trigger] final(self).entries()[i] == (
                old(self).entries()[i].0,
                Viewport { redraw_pending: true, ..old(self).entries()[i].1 },
                ),
    {
        let n: usize = self.windows.len();
        let mut i: usize = 0;
        while i < n
            invariant
                i <= n,
                n == self.windows@.len(),
                self.windows@.len() == old(self).entries().len(),
                unique_keys(old(self).entries()),
                forall|j: int|
                    i <= j < n ==> #[trigger] self.windows@[j] == old(self).entries()[j],
                forall|j: int|
                    0 <= j < i ==> #[trigger] self.windows@[j] == (
                    old(self).entries()[j].0,
                    Viewport { redraw_pending: true, ..old(self).entries()[j].1 },
                    ),
            decreases n - i,
        {
            let key: u64 = self.windows[i].0;
            let mut vp = self.windows[i].1;
            vp.redraw_pending = true;
            *vec_index_mut(&mut self.windows, i) = (key, vp);
            i = i + 1;
        }
        proof {
            assert forall|p: int, q: int| 0 <= p < q < self.windows@.len() implies (
            #[trigger] self.windows@[p]).0 != (#[trigger] self.windows@[q]).0 by {
                assert(old(self).entries()[p].0 != old(self).entries()[q].0);
            }
        }
    }

    /// Every viewport, with its identifier, in entry order.
    pub fn viewports_iter(&self) -> (r: Vec<(u64, Viewport)>)
        ensures
            r@ == self.entries(),
    {
        let n: usize = self.windows.len();
        let mut r: Vec<(u64, Viewport)> = Vec::new();
        let mut i: usize = 0;
        while i < n
            invariant
                i <= n,
                n == self.windows@.len(),
                r@ == self.windows@.subrange(0, i as int),
            decreases n - i,
        {
            r.push((self.windows[i].0, self.windows[i].1));
            proof {
                assert(r@ =~= self.windows@.subrange(0, i as int + 1));
            }
            i = i + 1;
        }
        proof {
            assert(r@ =~= self.windows@);
        }
        r
    }

    /// Give every window that has only its bare surface a swap target
    /// sized to its current inner size, and report which, in entry order,
    /// so the host can build the real targets.
    pub fn maintain_outlets(&mut self) -> (r: Vec<u64>)
        requires
            old(self).wf(),
        ensures
            final(self).wf(),
            final(self).entries().len() == old(self).entries().len(),
            forall|i: int|
                0 <= i < final(self).entries().len() ==> #[trigger] final(self).entries()[i] == (
                old(self).entries()[i].0,
                Viewport {
                    outlet: if old(self).entries()[i].1.outlet is Surface {
                        Outlet::spec_install(old(self).entries()[i].1.size)
                    } else {
                        old(self).entries()[i].1.outlet
                    },
                    ..old(self).entries()[i].1
                },
                ),
            forall|j: int|
                0 <= j < r@.len() ==> surface_entry(old(self).entries(), #[trigger] r@[j]),
            forall|i: int|
                0 <= i < old(self).entries().len() && (#[trigger] old(self).entries()[i]).1.outlet
                    is Surface ==> r@.contains(old(self).entries()[i].0),
    {
        let n: usize = self.windows.len();
        let mut r: Vec<u64> = Vec::new();
        let mut i: usize = 0;
        while i < n
            invariant
                i <= n,
                n == self.windows@.len(),
                self.windows@.len() == old(self).entries().len(),
                unique_keys(old(self).entries()),
                forall|j: int|
                    i <= j < n ==> #[trigger] self.windows@[j] == old(self).entries()[j],
                forall|j: int|
                    0 <= j < i ==> #[trigger] self.windows@[j] == (
                    old(self).entries()[j].0,
                    Viewport {
                        outlet: if old(self).entries()[j].1.outlet is Surface {
                            Outlet::spec_install(old(self).entries()[j].1.size)
                        } else {
                            old(self).entries()[j].1.outlet
                        },
                        ..old(self).entries()[j].1
                    },
                    ),
                forall|j: int|
                    0 <= j < r@.len() ==> surface_entry(old(self).entries(), #[trigger] r@[j]),
                forall|j: int|
                    0 <= j < i && (#[trigger] old(self).entries()[j]).1.outlet is Surface
                        ==> r@.contains(old(self).entries()[j].0),
            decreases n - i,
        {
            let key: u64 = self.windows[i].0;
            let mut vp = self.windows[i].1;
            if vp.outlet.is_bare_surface() {
                let ghost rold = r@;
                r.push(key);
                vp.outlet.install_swap_target(vp.size);
                *vec_index_mut(&mut self.windows, i) = (key, vp);
                proof {
                    assert(r@ == rold.push(key));
                    assert(r@[r@.len() - 1] == old(self).entries()[i as int].0);
                    assert forall|j: int| 0 <= j < r@.len() implies surface_entry(
                        old(self).entries(),
                        #[trigger] r@[j],
                    ) by {
                        if j < rold.len() {
                            assert(r@[j] == rold[j]);
                            assert(surface_entry(old(self).entries(), rold[j]));
                        } else {
                            assert(r@[j] == key);
                            assert((old(self).entries()[i as int]).1.outlet is Surface && old(
                                self,
                            ).entries()[i as int].0 == key);
                            assert(surface_entry(old(self).entries(), key));
                        }
                    }
                    assert forall|j: int|
                        0 <= j < i + 1 && (#[trigger] old(self).entries()[j]).1.outlet
                            is Surface implies r@.contains(old(self).entries()[j].0) by {
                        if j < i {
                            assert(rold.contains(old(self).entries()[j].0));
                            let w = choose|w: int|
                                0 <= w < rold.len() && rold[w] == old(self).entries()[j].0;
                            assert(r@[w] == old(self).entries()[j].0);
                        } else {
                            assert(r@[r@.len() - 1] == old(self).entries()[j].0);
                        }
                    }
                }
            }
            i = i + 1;
        }
        proof {
            assert forall|p: int, q: int| 0 <= p < q < self.windows@.len() implies (
            #[trigger] self.windows@[p]).0 != (#[trigger] self.windows@[q]).0 by {
                assert(old(self).entries()[p].0 != old(self).entries()[q].0);
            }
        }
        r
    }

    /// Identifiers of the windows that still owe a redraw: exactly the
    /// redraw-owing entries, in entry order, each once.
    pub fn viewports_to_redraw(&self) -> (r: Vec<u64>)
        requires
            self.wf(),
        ensures
            r@ == redraw_ids(self.entries()),
            forall|a: int, b: int| 0 <= a < b < r@.len() ==> r@[a] != r@[b],
            forall|i: int|
                0 <= i < r@.len() ==> self@.contains_key(#[trigger] r@[i]) && self@[r@[i]].redraw_pending,
            forall|w: u64|
                self@.contains_key(w) && self@[w].redraw_pending ==> r@.contains(w),
    {
        proof {
            lemma_map_of_dom(self.windows@);
            assert(redraw_ids(self.windows@.subrange(0, 0)) =~= Seq::<u64>::empty());
        }
        let n: usize = self.windows.len();
        let mut r: Vec<u64> = Vec::new();
        let mut i: usize = 0;
        while i < n
            invariant
                i <= n,
                n == self.windows@.len(),
                self.wf(),
                r@ == redraw_ids(self.windows@.subrange(0, i as int)),
                forall|j: int|
                    0 <= j < r@.len() ==> self@.contains_key(#[trigger] r@[j])
                        && self@[r@[j]].redraw_pending,
                forall|j: int|
                    0 <= j < i && (#[trigger] self.windows@[j]).1.redraw_pending ==> r@.contains(
                        self.windows@[j].0,
                    ),
            decreases n - i,
        {
            proof {
                lemma_map_of_index(self.windows@, i as int);
                let pre = self.windows@.subrange(0, i as int + 1);
                assert(pre.drop_last() =~= self.windows@.subrange(0, i as int));
                assert(pre.last() == self.windows@[i as int]);
            }
            if self.windows[i].1.redraw_pending {
                let ghost rold = r@;
                r.push(self.windows[i].0);
                proof {
                    assert(r@ == rold.push(self.windows@[i as int].0));
                    assert(r@[r@.len() - 1] == self.windows@[i as int].0);
                    assert forall|j: int|
                        0 <= j < i + 1 && (#[trigger] self.windows@[j]).1.redraw_pending implies r@
                        .contains(self.windows@[j].0) by {
                        if j < i {
                            assert(rold.contains(self.windows@[j].0));
                            let w = choose|w: int| 0 <= w < rold.len() && rold[w] == self.windows@[j].0;
                            assert(r@[w] == self.windows@[j].0);
                        } else {
                            assert(r@[r@.len() - 1] == self.windows@[j].0);
                        }
                    }
                }
            }
            i = i + 1;
        }
        proof {
            assert(self.windows@.subrange(0, n as int) =~= self.windows@);
            lemma_redraw_ids_distinct(self.windows@);
            assert forall|w: u64| self@.contains_key(w) && self@[w].redraw_pending implies r@
                .contains(w) by {
                let j = choose|j: int| 0 <= j < self.windows@.len() && (#[trigger] self.windows@[j]).0 == w;
                lemma_map_of_index(self.windows@, j);
                assert(self.windows@[j].1.redraw_pending);
            }
        }
        r
    }

    /// Remove a window the user closed; reports whether none are left.
    ///
    /// Unlike [`Manager::destroy`], an unknown identifier is tolerated: the
    /// close may race a destroy command drained in the same iteration.
    pub fn close_native_window(&mut self, wid: u64) -> (empty: bool)
        requires
            old(self).wf(),
        ensures
            final(self).wf(),
            final(self)@ == old(self)@.remove(wid),
            empty == (final(self).entries().len() == 0),
    {
        match index_of(&self.windows, wid) {
            Some(i) => {
                proof {
                    lemma_map_of_remove(self.windows@, i as int);
                }
                self.windows.remove(i);
            },
            None => {
                proof {
                    lemma_map_of_no_key(self.windows@, wid);
                }
            },
        }
        self.windows.len() == 0
    }
}

} // verus!
