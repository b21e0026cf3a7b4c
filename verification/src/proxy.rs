//! The viewport proxy: the deferred-command bridge with a read cache.
//!
//! The GUI layer's platform callbacks run mid-layout, where native windows
//! must not be created or destroyed.  Each callback therefore only records
//! a [`Command`] against a [`Key`] (and, for geometry mutations and
//! destroys, marks the key's cached snapshot absent), and returns at
//! once.  Once per event-loop
//! iteration the host calls [`Proxy::update`], which applies the queue in
//! issue order against the [`Manager`], emits the [`Action`]s the host must
//! replay on the real windows, and refreshes every live key's cache from
//! the manager's window state.
//!
//! Reads ([`Proxy::get_position`] and friends) answer purely from the
//! cache and fail loudly when the snapshot is absent: absence means a
//! mutation of that key has not been drained yet, or the caller broke the
//! call-ordering contract.

use vstd::prelude::*;
use vstd::std_specs::vec::vec_index_mut;

use crate::assoc::{has_key, index_of, lemma_map_of_dom, lemma_map_of_index, lemma_map_of_push,
    lemma_map_of_remove, lemma_map_of_set, map_of, unique_keys};
use crate::geom::{Pos, Size};
use crate::manager::{Manager, NewWindow, Viewport};
use crate::outlet::Outlet;

verus! {

/// Handle the proxy mints for one viewport.  `0` is reserved as "no
/// viewport assigned" and is never issued.
pub type Key = u64;

/// Why a proxy operation was refused.
#[derive(Clone, Copy, Debug, PartialEq, Eq, Structural)]
pub enum ProxyError {
    /// The key is not live: never minted, or already destroyed.
    UnknownKey,
    /// The key's cached snapshot is absent: a mutation of the key has not
    /// been drained yet, so a synchronous read would be stale.
    StaleRead,
}

/// Snapshot of one window's externally visible state, valid between
/// drains.
#[derive(Clone, Copy, Debug, PartialEq, Eq, Structural)]
pub struct CacheData {
    pub pos: Pos,
    pub size: Size,
    pub focus: bool,
    pub minimized: bool,
}

/// What the proxy holds per live key: the native window it stands for and
/// the last drained snapshot, if still valid.
#[derive(Clone, Copy, Debug)]
pub struct CacheEntry {
    pub wid: u64,
    pub data: Option<CacheData>,
}

/// One deferred operation.
#[derive(Debug)]
pub enum Kind {
    CreateWindow { decorations: bool },
    DestroyWindow,
    ShowWindow,
    SetPos(Pos),
    SetSize(Size),
    SetFocus,
    SetTitle(String),
}

/// A deferred operation, tagged with the key it targets.
#[derive(Debug)]
pub struct Command {
    pub key: Key,
    pub kind: Kind,
}

/// What the host must replay on the real windows after a drain, in the
/// order the drain produced it.
#[derive(Debug)]
pub enum Action {
    /// Drop the native window with this identifier.
    Close { wid: u64 },
    /// Make the window visible.
    Show { wid: u64 },
    /// Move the window's outer position.
    SetPos { wid: u64, pos: Pos },
    /// Resize the window's inner size.
    SetSize { wid: u64, size: Size },
    /// Give the window input focus.
    Focus { wid: u64 },
    /// Retitle the window.
    Title { wid: u64, title: String },
}

/// The cache's view of one window, as the drain records it.
pub open spec fn snap(vp: Viewport) -> CacheData {
    CacheData { pos: vp.pos, size: vp.size, focus: vp.focus, minimized: vp.minimized }
}

/// How one command changes the set of live keys.
pub open spec fn step_live(live: Set<Key>, c: Command) -> Set<Key> {
    match c.kind {
        Kind::CreateWindow { .. } => live.insert(c.key),
        Kind::DestroyWindow => live.remove(c.key),
        _ => live,
    }
}

/// Whether every queued command will apply cleanly, replayed in order over
/// this set of live keys: a create's key must be fresh, every other
/// command's key must be live when its turn comes.
pub open spec fn queue_ok(live: Set<Key>, cmds: Seq<Command>) -> bool
    decreases cmds.len(),
{
    if cmds.len() == 0 {
        true
    } else {
        let c = cmds[0];
        let head_ok = match c.kind {
            Kind::CreateWindow { .. } => !live.contains(c.key),
            _ => live.contains(c.key),
        };
        head_ok && queue_ok(step_live(live, c), cmds.drop_first())
    }
}

/// The set of live keys after the whole queue is replayed.
pub open spec fn live_after(live: Set<Key>, cmds: Seq<Command>) -> Set<Key>
    decreases cmds.len(),
{
    if cmds.len() == 0 {
        live
    } else {
        live_after(step_live(live, cmds[0]), cmds.drop_first())
    }
}

/// The decoration flags of the queued creates, in issue order: one native
/// window must be spawned per element before the next drain.
pub open spec fn creates_of(cmds: Seq<Command>) -> Seq<bool>
    decreases cmds.len(),
{
    if cmds.len() == 0 {
        Seq::empty()
    } else {
        match cmds[0].kind {
            Kind::CreateWindow { decorations } => seq![decorations] + creates_of(cmds.drop_first()),
            _ => creates_of(cmds.drop_first()),
        }
    }
}

/// State threaded through the drain: the proxy's key associations, the
/// manager's viewports, and the native actions owed to the host so far.
pub struct DrainState {
    pub entries: Map<Key, CacheEntry>,
    pub windows: Map<u64, Viewport>,
    pub actions: Seq<Action>,
}

/// One drained create: the key is bound to the freshly spawned window,
/// which joins the manager in its initial state.  The cache entry starts
/// absent and fills in the recache step.
pub open spec fn drain_step_create(st: DrainState, key: Key, nw: NewWindow) -> DrainState {
    DrainState {
        entries: st.entries.insert(key, CacheEntry { wid: nw.wid, data: None }),
        windows: st.windows.insert(nw.wid, Viewport::spec_initial(nw.pos, nw.size)),
        actions: st.actions,
    }
}

/// One drained non-create command, applied to the key's live window.
pub open spec fn drain_step(st: DrainState, c: Command) -> DrainState {
    let wid = st.entries[c.key].wid;
    match c.kind {
        Kind::CreateWindow { .. } => st,
        Kind::DestroyWindow => DrainState {
            entries: st.entries.remove(c.key),
            windows: st.windows.remove(wid),
            actions: st.actions.push(Action::Close { wid }),
        },
        Kind::ShowWindow => DrainState {
            entries: st.entries,
            windows: st.windows,
            actions: st.actions.push(Action::Show { wid }),
        },
        Kind::SetPos(pos) => DrainState {
            entries: st.entries,
            windows: st.windows.insert(wid, Viewport { pos, ..st.windows[wid] }),
            actions: st.actions.push(Action::SetPos { wid, pos }),
        },
        Kind::SetSize(size) => DrainState {
            entries: st.entries,
            windows: st.windows.insert(
                wid,
                Viewport { size, outlet: Outlet::Surface, ..st.windows[wid] },
            ),
            actions: st.actions.push(Action::SetSize { wid, size }),
        },
        Kind::SetFocus => DrainState {
            entries: st.entries,
            windows: st.windows.insert(wid, Viewport { focus: true, ..st.windows[wid] }),
            actions: st.actions.push(Action::Focus { wid }),
        },
        Kind::SetTitle(title) => DrainState {
            entries: st.entries,
            windows: st.windows,
            actions: st.actions.push(Action::Title { wid, title }),
        },
    }
}

/// The whole queue replayed in issue order, consuming one fresh window
/// per create.
pub open spec fn drain_fold(st: DrainState, cmds: Seq<Command>, fresh: Seq<NewWindow>) -> DrainState
    decreases cmds.len(),
{
    if cmds.len() == 0 {
        st
    } else if cmds[0].kind is CreateWindow {
        drain_fold(
            drain_step_create(st, cmds[0].key, fresh[0]),
            cmds.drop_first(),
            fresh.drop_first(),
        )
    } else {
        drain_fold(drain_step(st, cmds[0]), cmds.drop_first(), fresh)
    }
}

/// Every live key's snapshot recomputed from its window's current state.
pub open spec fn recache(entries: Map<Key, CacheEntry>, windows: Map<u64, Viewport>) -> Map<
    Key,
    CacheEntry,
> {
    Map::new(
        |k: Key| entries.contains_key(k),
        |k: Key|
            CacheEntry {
                wid: entries[k].wid,
                data: Some(snap(windows[entries[k].wid])),
            },
    )
}

/// What one drain makes of a proxy, a manager and the fresh windows the
/// host spawned for the queued creates.
pub open spec fn drained(p: Proxy, m: Manager, fresh: Seq<NewWindow>) -> DrainState {
    drain_fold(
        DrainState { entries: p@, windows: m@, actions: Seq::empty() },
        p.queue(),
        fresh,
    )
}

/// Every key the proxy holds stands for a window the manager owns.
pub open spec fn consistent(p: Proxy, m: Manager) -> bool {
    forall|k: Key| #[trigger] p@.contains_key(k) ==> m@.contains_key(p@[k].wid)
}

/// The keys the queued creates mint.
pub open spec fn created_keys(cmds: Seq<Command>) -> Set<Key> {
    Set::new(
        |k: Key| exists|i: int| 0 <= i < cmds.len() && (#[trigger] cmds[i]).kind is CreateWindow && cmds[i].key == k,
    )
}

/// The keys the queued destroys retire.
pub open spec fn destroyed_keys(cmds: Seq<Command>) -> Set<Key> {
    Set::new(
        |k: Key| exists|i: int| 0 <= i < cmds.len() && (#[trigger] cmds[i]).kind is DestroyWindow && cmds[i].key == k,
    )
}

/// Each queued create mints a key that is not live at the start and that
/// no earlier command names.
pub open spec fn creates_fresh(live: Set<Key>, cmds: Seq<Command>) -> bool {
    forall|j: int|
        0 <= j < cmds.len() && (#[trigger] cmds[j]).kind is CreateWindow ==> !live.contains(
            cmds[j].key,
        ) && (forall|i: int| 0 <= i < j ==> (#[trigger] cmds[i]).key != cmds[j].key)
}

/// Law: replaying a well-formed queue leaves exactly the net effect of its
/// creates and destroys, respecting order: the keys live before it or
/// minted by a create, minus the keys a destroy retires.
pub proof fn lemma_drain_net_effect(live: Set<Key>, cmds: Seq<Command>)
    requires
        queue_ok(live, cmds),
        creates_fresh(live, cmds),
    ensures
        live_after(live, cmds) =~= live.union(created_keys(cmds)).difference(
            destroyed_keys(cmds),
        ),
    decreases cmds.len(),
{
    if cmds.len() == 0 {
        assert(forall|k: Key| !created_keys(cmds).contains(k));
        assert(forall|k: Key| !destroyed_keys(cmds).contains(k));
    } else {
        let c = cmds[0];
        let rest = cmds.drop_first();
        let live1 = step_live(live, c);
        assert forall|j: int|
            0 <= j < rest.len() && (#[trigger] rest[j]).kind is CreateWindow implies !live1
            .contains(rest[j].key) && (forall|i: int|
            0 <= i < j ==> (#[trigger] rest[i]).key != rest[j].key) by {
            assert(rest[j] == cmds[j + 1]);
            assert(!live.contains(cmds[j + 1].key));
            assert(cmds[0].key != cmds[j + 1].key || !(c.kind is CreateWindow));
            if c.kind is CreateWindow {
                assert(cmds[0].key != cmds[j + 1].key);
            } else if c.kind is DestroyWindow {
                assert(live.contains(c.key));
            }
            assert(!live1.contains(cmds[j + 1].key));
            assert forall|i: int| 0 <= i < j implies (#[trigger] rest[i]).key != rest[j].key by {
                assert(rest[i] == cmds[i + 1]);
                assert(cmds[i + 1].key != cmds[j + 1].key);
            }
        }
        lemma_drain_net_effect(live1, rest);
        assert forall|k: Key| #[trigger] created_keys(rest).contains(k)
            || (c.kind is CreateWindow && c.key == k) implies created_keys(cmds).contains(k) by {
            if created_keys(rest).contains(k) {
                let i = choose|i: int|
                    0 <= i < rest.len() && (#[trigger] rest[i]).kind is CreateWindow && rest[i].key
                        == k;
                assert(cmds[i + 1].kind is CreateWindow && cmds[i + 1].key == k);
            }
        }
        assert forall|k: Key| #[trigger] created_keys(cmds).contains(k) implies created_keys(
            rest,
        ).contains(k) || (c.kind is CreateWindow && c.key == k) by {
            let i = choose|i: int|
                0 <= i < cmds.len() && (#[trigger] cmds[i]).kind is CreateWindow && cmds[i].key
                    == k;
            if i > 0 {
                assert(rest[i - 1].kind is CreateWindow && rest[i - 1].key == k);
            }
        }
        assert forall|k: Key| #[trigger] destroyed_keys(rest).contains(k)
            || (c.kind is DestroyWindow && c.key == k) implies destroyed_keys(cmds).contains(
            k,
        ) by {
            if destroyed_keys(rest).contains(k) {
                let i = choose|i: int|
                    0 <= i < rest.len() && (#[trigger] rest[i]).kind is DestroyWindow && rest[i].key
                        == k;
                assert(cmds[i + 1].kind is DestroyWindow && cmds[i + 1].key == k);
            }
        }
        assert forall|k: Key| #[trigger] destroyed_keys(cmds).contains(k) implies destroyed_keys(
            rest,
        ).contains(k) || (c.kind is DestroyWindow && c.key == k) by {
            let i = choose|i: int|
                0 <= i < cmds.len() && (#[trigger] cmds[i]).kind is DestroyWindow && cmds[i].key
                    == k;
            if i > 0 {
                assert(rest[i - 1].kind is DestroyWindow && rest[i - 1].key == k);
            }
        }
        if c.kind is DestroyWindow {
            assert(live.contains(c.key));
            assert(!created_keys(rest).contains(c.key)) by {
                if created_keys(rest).contains(c.key) {
                    let i = choose|i: int|
                        0 <= i < rest.len() && (#[trigger] rest[i]).kind is CreateWindow
                            && rest[i].key == c.key;
                    assert(cmds[i + 1].kind is CreateWindow && cmds[i + 1].key == c.key);
                    assert(!live.contains(cmds[i + 1].key));
                }
            }
        }
    }
}

/// The drained key associations cover exactly the keys left live by the
/// replay.
pub proof fn lemma_drain_fold_dom(st: DrainState, cmds: Seq<Command>, fresh: Seq<NewWindow>)
    ensures
        drain_fold(st, cmds, fresh).entries.dom() =~= live_after(st.entries.dom(), cmds),
    decreases cmds.len(),
{
    if cmds.len() > 0 {
        let c = cmds[0];
        if c.kind is CreateWindow {
            let st1 = drain_step_create(st, c.key, fresh[0]);
            lemma_drain_fold_dom(st1, cmds.drop_first(), fresh.drop_first());
            assert(st1.entries.dom() =~= step_live(st.entries.dom(), c));
        } else {
            let st1 = drain_step(st, c);
            lemma_drain_fold_dom(st1, cmds.drop_first(), fresh);
            assert(st1.entries.dom() =~= step_live(st.entries.dom(), c));
        }
    }
}

/// Appending a command whose key is in order keeps the queue replayable,
/// and the final live set steps accordingly.
proof fn lemma_queue_push(live: Set<Key>, cmds: Seq<Command>, c: Command)
    requires
        queue_ok(live, cmds),
        c.kind is CreateWindow ==> !live_after(live, cmds).contains(c.key),
        !(c.kind is CreateWindow) ==> live_after(live, cmds).contains(c.key),
    ensures
        queue_ok(live, cmds.push(c)),
        live_after(live, cmds.push(c)) == step_live(live_after(live, cmds), c),
    decreases cmds.len(),
{
    if cmds.len() == 0 {
        assert(cmds.push(c)[0] == c);
        assert(cmds.push(c).drop_first() =~= Seq::<Command>::empty());
        assert(queue_ok(step_live(live, c), Seq::<Command>::empty()));
        assert(live_after(step_live(live, c), Seq::<Command>::empty()) == step_live(live, c));
        assert(live_after(live, cmds) == live);
    } else {
        assert(cmds.push(c)[0] == cmds[0]);
        assert(cmds.push(c).drop_first() =~= cmds.drop_first().push(c));
        lemma_queue_push(step_live(live, cmds[0]), cmds.drop_first(), c);
    }
}

/// A key live after the replay was live before it or is named by some
/// queued command.
proof fn lemma_live_after_members(live: Set<Key>, cmds: Seq<Command>)
    ensures
        forall|k: Key| #[trigger]
            live_after(live, cmds).contains(k) ==> live.contains(k) || exists|i: int|
                0 <= i < cmds.len() && (#[trigger] cmds[i]).key == k,
    decreases cmds.len(),
{
    if cmds.len() > 0 {
        lemma_live_after_members(step_live(live, cmds[0]), cmds.drop_first());
        assert forall|k: Key| #[trigger] live_after(live, cmds).contains(k) implies live.contains(k)
            || exists|i: int| 0 <= i < cmds.len() && (#[trigger] cmds[i]).key == k by {
            assert(live_after(live, cmds) == live_after(step_live(live, cmds[0]), cmds.drop_first()));
            if step_live(live, cmds[0]).contains(k) {
                if !live.contains(k) {
                    assert(cmds[0].key == k);
                }
            } else {
                let i = choose|i: int|
                    0 <= i < cmds.drop_first().len() && (#[trigger] cmds.drop_first()[i]).key == k;
                assert(cmds.drop_first()[i] == cmds[i + 1]);
                assert(cmds[i + 1].key == k);
            }
        }
    }
}

/// The deferred-command bridge between the GUI layer's callbacks and the
/// window manager.
pub struct Proxy {
    windows: Vec<(Key, CacheEntry)>,
    commands: Vec<Command>,
    next_id: Key,
}

impl View for Proxy {
    type V = Map<Key, CacheEntry>;

    closed spec fn view(&self) -> Map<Key, CacheEntry> {
        map_of(self.windows@)
    }
}

impl Proxy {
    /// The cache's entry list, in insertion order.
    pub closed spec fn entries(self) -> Seq<(Key, CacheEntry)> {
        self.windows@
    }

    /// The pending commands, in issue order.
    pub closed spec fn queue(self) -> Seq<Command> {
        self.commands@
    }

    /// The key the next create will mint.
    pub closed spec fn next_id(self) -> Key {
        self.next_id
    }

    /// A key the GUI layer may still operate on: its entry exists or its
    /// create is queued, and its destroy is not.
    pub open spec fn live_keys(self) -> Set<Key> {
        live_after(self@.dom(), self.queue())
    }

    /// A native window identifier some entry stands for.
    pub closed spec fn uses_wid(self, wid: u64) -> bool {
        exists|i: int| 0 <= i < self.windows@.len() && (#[trigger] self.windows@[i]).1.wid == wid
    }

    /// The proxy's invariant, preserved by every operation:
    /// keys are unique and below the mint counter, zero is never a key,
    /// distinct keys stand for distinct windows, and the queue replays
    /// cleanly, each create minting a key nothing else carries.
    pub closed spec fn wf(self) -> bool {
        &&& unique_keys(self.windows@)
        &&& (forall|i: int, j: int|
            0 <= i < j < self.windows@.len() ==> (#[trigger] self.windows@[i]).1.wid != (
            #[trigger] self.windows@[j]).1.wid)
        &&& 1 <= self.next_id
        &&& (forall|i: int|
            0 <= i < self.windows@.len() ==> 0 < (#[trigger] self.windows@[i]).0 < self.next_id)
        &&& (forall|i: int|
            0 <= i < self.commands@.len() ==> 0 < (#[trigger] self.commands@[i]).key < self.next_id)
        &&& queue_ok(self@.dom(), self.commands@)
        &&& (forall|j: int|
            0 <= j < self.commands@.len() && (#[trigger] self.commands@[j]).kind is CreateWindow
                ==> !has_key(self.windows@, self.commands@[j].key) && (forall|i: int|
                0 <= i < j ==> (#[trigger] self.commands@[i]).key != self.commands@[j].key))
    }

    /// A fresh proxy: no keys, no commands, minting starts at `1`.
    pub fn new() -> (p: Proxy)
        ensures
            p.wf(),
            p@ == Map::<Key, CacheEntry>::empty(),
            p.queue() == Seq::<Command>::empty(),
            p.next_id() == 1u64,
            p.live_keys() == Set::<Key>::empty(),
    {
        let p = Proxy { windows: Vec::new(), commands: Vec::new(), next_id: 1 };
        proof {
            assert(p@ =~= Map::<Key, CacheEntry>::empty());
            assert(p@.dom() =~= Set::<Key>::empty());
            assert(p.live_keys() =~= Set::<Key>::empty());
        }
        p
    }

    /// Bind a pre-existing native window (the program's first) to a fresh
    /// key before any callback fires.  Its cache starts absent and fills
    /// at the next drain.
    pub fn use_window(&mut self, wid: u64) -> (k: Key)
        requires
            old(self).wf(),
            old(self).next_id() < u64::MAX,
            !old(self).uses_wid(wid),
            old(self).queue().len() == 0,
        ensures
            final(self).wf(),
            k == old(self).next_id(),
            k != 0,
            !old(self)@.contains_key(k),
            final(self)@ == old(self)@.insert(k, CacheEntry { wid, data: None }),
            final(self).queue() == old(self).queue(),
            final(self).next_id() == k + 1,
            final(self).uses_wid(wid),
    {
        let key = self.next_key();
        let entry = CacheEntry { wid, data: None };
        proof {
            lemma_map_of_dom(self.windows@);
            assert(!has_key(self.windows@, key));
            lemma_map_of_push(self.windows@, key, entry);
        }
        self.windows.push((key, entry));
        proof {
            let s = self.windows@;
            let t = old(self).entries();
            assert(s == t.push((key, entry)));
            assert forall|p: int, q: int| 0 <= p < q < s.len() implies (#[trigger] s[p]).0 != (
            #[trigger] s[q]).0 by {
                if q == s.len() - 1 {
                    assert(s[p] == t[p]);
                } else {
                    assert(s[p] == t[p]);
                    assert(s[q] == t[q]);
                }
            }
            assert forall|p: int, q: int| 0 <= p < q < s.len() implies (#[trigger] s[p]).1.wid != (
            #[trigger] s[q]).1.wid by {
                if q == s.len() - 1 {
                    assert(s[p] == t[p]);
                    assert(!old(self).uses_wid(s[q].1.wid));
                } else {
                    assert(s[p] == t[p]);
                    assert(s[q] == t[q]);
                }
            }
            assert(s[s.len() - 1].1.wid == wid);
            lemma_map_of_dom(s);
            assert(self@.dom() =~= old(self)@.dom().insert(key));
        }
        key
    }

    /// Mint the next key: strictly increasing, never zero.
    fn next_key(&mut self) -> (k: Key)
        requires
            old(self).next_id() < u64::MAX,
        ensures
            k == old(self).next_id(),
            final(self).next_id() == k + 1,
            final(self).entries() == old(self).entries(),
            final(self).queue() == old(self).queue(),
            final(self)@ == old(self)@,
    {
        let key = self.next_id;
        self.next_id = self.next_id + 1;
        key
    }

    /// Whether the GUI layer may still operate on this key: minted and not
    /// destroyed, counting the commands already queued.
    pub fn key_live(&self, key: Key) -> (r: bool)
        requires
            self.wf(),
        ensures
            r == self.live_keys().contains(key),
    {
        proof {
            lemma_map_of_dom(self.windows@);
        }
        let mut b: bool = index_of(&self.windows, key).is_some();
        let ghost mut cur: Set<Key> = self@.dom();
        let n: usize = self.commands.len();
        let mut i: usize = 0;
        proof {
            assert(self.commands@.subrange(0, n as int) =~= self.commands@);
        }
        while i < n
            invariant
                i <= n,
                n == self.commands@.len(),
                b == cur.contains(key),
                live_after(cur, self.commands@.subrange(i as int, n as int)) == self.live_keys(),
            decreases n - i,
        {
            let c = &self.commands[i];
            proof {
                let rest = self.commands@.subrange(i as int, n as int);
                assert(rest[0] == self.commands@[i as int]);
                assert(rest.drop_first() =~= self.commands@.subrange(i as int + 1, n as int));
                assert(live_after(cur, rest) == live_after(
                    step_live(cur, self.commands@[i as int]),
                    rest.drop_first(),
                ));
            }
            if c.key == key {
                match &c.kind {
                    Kind::CreateWindow { .. } => {
                        b = true;
                    },
                    Kind::DestroyWindow => {
                        b = false;
                    },
                    _ => {},
                }
            }
            proof {
                cur = step_live(cur, self.commands@[i as int]);
            }
            i = i + 1;
        }
        proof {
            assert(self.commands@.subrange(n as int, n as int) =~= Seq::<Command>::empty());
        }
        b
    }

    /// The native window an entry stands for, if the key has one.
    pub fn window_id(&self, key: Key) -> (r: Option<u64>)
        requires
            self.wf(),
        ensures
            r.is_some() == self@.contains_key(key),
            r.is_some() ==> r.unwrap() == self@[key].wid,
    {
        proof {
            lemma_map_of_dom(self.windows@);
        }
        match index_of(&self.windows, key) {
            Some(i) => {
                proof {
                    lemma_map_of_index(self.windows@, i as int);
                }
                Some(self.windows[i].1.wid)
            },
            None => None,
        }
    }

    /// Append a non-create command for a live key.
    fn push_command(&mut self, c: Command)
        requires
            old(self).wf(),
            !(c.kind is CreateWindow),
            old(self).live_keys().contains(c.key),
        ensures
            final(self).wf(),
            final(self).entries() == old(self).entries(),
            final(self)@ == old(self)@,
            final(self).queue() == old(self).queue().push(c),
            final(self).next_id() == old(self).next_id(),
            final(self).live_keys() == step_live(old(self).live_keys(), c),
    {
        proof {
            lemma_map_of_dom(self.windows@);
            lemma_live_after_members(self@.dom(), self.commands@);
            assert(0 < c.key < self.next_id) by {
                if self@.dom().contains(c.key) {
                    let i = choose|i: int|
                        0 <= i < self.windows@.len() && (#[trigger] self.windows@[i]).0 == c.key;
                    assert(0 < self.windows@[i].0 < self.next_id);
                } else {
                    let i = choose|i: int|
                        0 <= i < self.commands@.len() && (#[trigger] self.commands@[i]).key == c.key;
                    assert(0 < self.commands@[i].key < self.next_id);
                }
            }
            lemma_queue_push(self@.dom(), self.commands@, c);
        }
        let ghost qold = self.commands@;
        self.commands.push(c);
        proof {
            let q = self.commands@;
            assert forall|j: int|
                0 <= j < q.len() && (#[trigger] q[j]).kind is CreateWindow implies !has_key(
                self.windows@,
                q[j].key,
            ) && (forall|i: int| 0 <= i < j ==> (#[trigger] q[i]).key != q[j].key) by {
                assert(j < qold.len());
                assert(q[j] == qold[j]);
                assert forall|i: int| 0 <= i < j implies (#[trigger] q[i]).key != q[j].key by {
                    assert(q[i] == qold[i]);
                }
            }
        }
    }

    /// Mark a key's cached snapshot absent; a miss is tolerated, since a
    /// freshly minted key has no entry until its create drains.
    fn make_dirty(&mut self, key: Key)
        requires
            old(self).wf(),
        ensures
            final(self).wf(),
            final(self)@ == (if old(self)@.contains_key(key) {
                old(self)@.insert(
                    key,
                    CacheEntry { wid: old(self)@[key].wid, data: None },
                )
            } else {
                old(self)@
            }),
            final(self)@.dom() == old(self)@.dom(),
            final(self).queue() == old(self).queue(),
            final(self).next_id() == old(self).next_id(),
            final(self).live_keys() == old(self).live_keys(),
            forall|w: u64| final(self).uses_wid(w) == old(self).uses_wid(w),
    {
        proof {
            lemma_map_of_dom(self.windows@);
        }
        match index_of(&self.windows, key) {
            Some(i) => {
                proof {
                    lemma_map_of_index(self.windows@, i as int);
                    lemma_map_of_set(
                        self.windows@,
                        i as int,
                        CacheEntry { wid: self.windows@[i as int].1.wid, data: None },
                    );
                }
                let wid: u64 = self.windows[i].1.wid;
                *vec_index_mut(&mut self.windows, i) = (key, CacheEntry { wid, data: None });
                proof {
                    let s = self.windows@;
                    let t = old(self).entries();
                    assert(s == t.update(i as int, (key, CacheEntry { wid, data: None })));
                    assert forall|p: int, q: int| 0 <= p < q < s.len() implies (#[trigger] s[p]).1.wid
                        != (#[trigger] s[q]).1.wid by {
                        assert(t[p].1.wid != t[q].1.wid);
                        assert(s[p].1.wid == t[p].1.wid);
                        assert(s[q].1.wid == t[q].1.wid);
                    }
                    assert forall|p: int| 0 <= p < s.len() implies 0 < (#[trigger] s[p]).0
                        < self.next_id by {
                        assert(t[p].0 == s[p].0);
                    }
                    assert(self@.dom() =~= old(self)@.dom());
                    assert forall|j: int|
                        0 <= j < self.commands@.len() && (#[trigger] self.commands@[j]).kind
                            is CreateWindow implies !has_key(s, self.commands@[j].key) by {
                        assert(!has_key(t, self.commands@[j].key));
                        if has_key(s, self.commands@[j].key) {
                            let x = choose|x: int|
                                0 <= x < s.len() && (#[trigger] s[x]).0 == self.commands@[j].key;
                            assert(t[x].0 == s[x].0);
                        }
                    }
                    assert forall|w: u64| final(self).uses_wid(w) == old(self).uses_wid(w) by {
                        if old(self).uses_wid(w) {
                            let x = choose|x: int|
                                0 <= x < t.len() && (#[trigger] t[x]).1.wid == w;
                            assert(s[x].1.wid == w);
                        }
                        if final(self).uses_wid(w) {
                            let x = choose|x: int|
                                0 <= x < s.len() && (#[trigger] s[x]).1.wid == w;
                            assert(t[x].1.wid == w);
                        }
                    }
                }
            },
            None => {
                proof {
                    assert(final(self)@ == old(self)@);
                }
            },
        }
    }

    /// Mint a fresh key and queue the creation of its native window; the
    /// window does not exist until the next drain, and the key has no
    /// cache entry until then.
    pub fn create_window(&mut self, decorations: bool) -> (k: Key)
        requires
            old(self).wf(),
            old(self).next_id() < u64::MAX,
        ensures
            final(self).wf(),
            k == old(self).next_id(),
            k != 0,
            !old(self).live_keys().contains(k),
            !old(self)@.contains_key(k),
            final(self)@ == old(self)@,
            final(self).queue() == old(self).queue().push(
                (Command { key: k, kind: Kind::CreateWindow { decorations } }),
            ),
            final(self).next_id() == k + 1,
            final(self).live_keys() == old(self).live_keys().insert(k),
            forall|w: u64| final(self).uses_wid(w) == old(self).uses_wid(w),
    {
        let key = self.next_key();
        let c = Command { key, kind: Kind::CreateWindow { decorations } };
        proof {
            lemma_map_of_dom(self.windows@);
            lemma_live_after_members(self@.dom(), self.commands@);
            assert(!old(self).live_keys().contains(key)) by {
                if old(self).live_keys().contains(key) {
                    if self@.dom().contains(key) {
                        let i = choose|i: int|
                            0 <= i < self.windows@.len() && (#[trigger] self.windows@[i]).0 == key;
                        assert(0 < self.windows@[i].0 < key);
                    } else {
                        let i = choose|i: int|
                            0 <= i < self.commands@.len() && (#[trigger] self.commands@[i]).key
                                == key;
                        assert(0 < self.commands@[i].key < key);
                    }
                }
            }
            lemma_queue_push(self@.dom(), self.commands@, c);
        }
        let ghost qold = self.commands@;
        self.commands.push(c);
        proof {
            let q = self.commands@;
            assert forall|j: int|
                0 <= j < q.len() && (#[trigger] q[j]).kind is CreateWindow implies !has_key(
                self.windows@,
                q[j].key,
            ) && (forall|i: int| 0 <= i < j ==> (#[trigger] q[i]).key != q[j].key) by {
                if j < qold.len() {
                    assert(q[j] == qold[j]);
                    assert forall|i: int| 0 <= i < j implies (#[trigger] q[i]).key != q[j].key by {
                        assert(q[i] == qold[i]);
                    }
                } else {
                    assert(q[j] == c);
                    assert(!has_key(self.windows@, key));
                    assert forall|i: int| 0 <= i < j implies (#[trigger] q[i]).key != q[j].key by {
                        assert(q[i] == qold[i]);
                        assert(0 < qold[i].key < key);
                    }
                }
            }
        }
        key
    }

    /// Queue the destruction of a key's native window and the retirement
    /// of the key, and mark its snapshot absent; refused when the key is
    /// not live.  From here on every operation on the key is rejected
    /// before the drain too: reads fail as stale, mutations as unknown.
    pub fn destroy_window(&mut self, key: Key) -> (r: Result<(), ProxyError>)
        requires
            old(self).wf(),
        ensures
            final(self).wf(),
            r.is_ok() == old(self).live_keys().contains(key),
            !r.is_ok() ==> *final(self) == *old(self) && r == Result::<(), ProxyError>::Err(
                ProxyError::UnknownKey,
            ),
            r.is_ok() ==> final(self).queue() == old(self).queue().push(
                (Command { key, kind: Kind::DestroyWindow }),
            ),
            r.is_ok() ==> final(self)@ == (if old(self)@.contains_key(key) {
                old(self)@.insert(key, CacheEntry { wid: old(self)@[key].wid, data: None })
            } else {
                old(self)@
            }),
            r.is_ok() ==> !(final(self)@.contains_key(key) && final(self)@[key].data.is_some()),
            final(self).next_id() == old(self).next_id(),
            r.is_ok() ==> final(self).live_keys() == old(self).live_keys().remove(key),
            !r.is_ok() ==> final(self).live_keys() == old(self).live_keys(),
    {
        if !self.key_live(key) {
            return Err(ProxyError::UnknownKey);
        }
        self.make_dirty(key);
        self.push_command(Command { key, kind: Kind::DestroyWindow });
        Ok(())
    }

    /// Queue making a key's window visible; refused when the key is not
    /// live.  The cache keeps its snapshot: visibility is not part of it.
    pub fn show_window(&mut self, key: Key) -> (r: Result<(), ProxyError>)
        requires
            old(self).wf(),
        ensures
            final(self).wf(),
            r.is_ok() == old(self).live_keys().contains(key),
            !r.is_ok() ==> *final(self) == *old(self) && r == Result::<(), ProxyError>::Err(
                ProxyError::UnknownKey,
            ),
            r.is_ok() ==> final(self).queue() == old(self).queue().push(
                (Command { key, kind: Kind::ShowWindow }),
            ),
            final(self)@ == old(self)@,
            final(self).next_id() == old(self).next_id(),
            final(self).live_keys() == old(self).live_keys(),
    {
        if !self.key_live(key) {
            return Err(ProxyError::UnknownKey);
        }
        self.push_command(Command { key, kind: Kind::ShowWindow });
        Ok(())
    }

    /// Queue a move and mark the key's snapshot absent, since the drain
    /// will change the geometry a synchronous read would report.
    pub fn set_position(&mut self, key: Key, pos: Pos) -> (r: Result<(), ProxyError>)
        requires
            old(self).wf(),
        ensures
            final(self).wf(),
            r.is_ok() == old(self).live_keys().contains(key),
            !r.is_ok() ==> *final(self) == *old(self) && r == Result::<(), ProxyError>::Err(
                ProxyError::UnknownKey,
            ),
            r.is_ok() ==> final(self).queue() == old(self).queue().push(
                (Command { key, kind: Kind::SetPos(pos) }),
            ),
            r.is_ok() ==> final(self)@ == (if old(self)@.contains_key(key) {
                old(self)@.insert(key, CacheEntry { wid: old(self)@[key].wid, data: None })
            } else {
                old(self)@
            }),
            final(self).next_id() == old(self).next_id(),
            final(self).live_keys() == old(self).live_keys(),
    {
        if !self.key_live(key) {
            return Err(ProxyError::UnknownKey);
        }
        self.make_dirty(key);
        self.push_command(Command { key, kind: Kind::SetPos(pos) });
        Ok(())
    }

    /// Queue a resize and mark the key's snapshot absent, since the drain
    /// will change the geometry a synchronous read would report.
    pub fn set_size(&mut self, key: Key, size: Size) -> (r: Result<(), ProxyError>)
        requires
            old(self).wf(),
        ensures
            final(self).wf(),
            r.is_ok() == old(self).live_keys().contains(key),
            !r.is_ok() ==> *final(self) == *old(self) && r == Result::<(), ProxyError>::Err(
                ProxyError::UnknownKey,
            ),
            r.is_ok() ==> final(self).queue() == old(self).queue().push(
                (Command { key, kind: Kind::SetSize(size) }),
            ),
            r.is_ok() ==> final(self)@ == (if old(self)@.contains_key(key) {
                old(self)@.insert(key, CacheEntry { wid: old(self)@[key].wid, data: None })
            } else {
                old(self)@
            }),
            r.is_ok() ==> !(final(self)@.contains_key(key) && final(self)@[key].data.is_some()),
            final(self).next_id() == old(self).next_id(),
            final(self).live_keys() == old(self).live_keys(),
    {
        if !self.key_live(key) {
            return Err(ProxyError::UnknownKey);
        }
        self.make_dirty(key);
        self.push_command(Command { key, kind: Kind::SetSize(size) });
        Ok(())
    }

    /// Queue a focus request; refused when the key is not live.  The cache
    /// keeps its snapshot: only geometry mutations invalidate it.
    pub fn set_focus(&mut self, key: Key) -> (r: Result<(), ProxyError>)
        requires
            old(self).wf(),
        ensures
            final(self).wf(),
            r.is_ok() == old(self).live_keys().contains(key),
            !r.is_ok() ==> *final(self) == *old(self) && r == Result::<(), ProxyError>::Err(
                ProxyError::UnknownKey,
            ),
            r.is_ok() ==> final(self).queue() == old(self).queue().push(
                (Command { key, kind: Kind::SetFocus }),
            ),
            final(self)@ == old(self)@,
            final(self).next_id() == old(self).next_id(),
            final(self).live_keys() == old(self).live_keys(),
    {
        if !self.key_live(key) {
            return Err(ProxyError::UnknownKey);
        }
        self.push_command(Command { key, kind: Kind::SetFocus });
        Ok(())
    }

    /// Queue a retitle; refused when the key is not live.  The cache keeps
    /// its snapshot: the title is not part of it.
    pub fn set_title(&mut self, key: Key, title: String) -> (r: Result<(), ProxyError>)
        requires
            old(self).wf(),
        ensures
            final(self).wf(),
            r.is_ok() == old(self).live_keys().contains(key),
            !r.is_ok() ==> *final(self) == *old(self) && r == Result::<(), ProxyError>::Err(
                ProxyError::UnknownKey,
            ),
            r.is_ok() ==> final(self).queue() == old(self).queue().push(
                (Command { key, kind: Kind::SetTitle(title) }),
            ),
            final(self)@ == old(self)@,
            final(self).next_id() == old(self).next_id(),
            final(self).live_keys() == old(self).live_keys(),
    {
        if !self.key_live(key) {
            return Err(ProxyError::UnknownKey);
        }
        self.push_command(Command { key, kind: Kind::SetTitle(title) });
        Ok(())
    }

    /// Read the cached snapshot, or fail: stale when the entry or its data
    /// is absent.
    fn cached(&self, key: Key) -> (r: Result<CacheData, ProxyError>)
        requires
            self.wf(),
        ensures
            r.is_ok() == (self@.contains_key(key) && self@[key].data.is_some()),
            r.is_ok() ==> r.unwrap() == self@[key].data.unwrap(),
            !r.is_ok() ==> r == Result::<CacheData, ProxyError>::Err(ProxyError::StaleRead),
    {
        proof {
            lemma_map_of_dom(self.windows@);
        }
        match index_of(&self.windows, key) {
            Some(i) => {
                proof {
                    lemma_map_of_index(self.windows@, i as int);
                }
                match self.windows[i].1.data {
                    Some(d) => Ok(d),
                    None => Err(ProxyError::StaleRead),
                }
            },
            None => Err(ProxyError::StaleRead),
        }
    }

    /// Cached outer position; fails with the stale-read condition when no
    /// valid snapshot exists, never answering with a default.
    pub fn get_position(&self, key: Key) -> (r: Result<Pos, ProxyError>)
        requires
            self.wf(),
        ensures
            r.is_ok() == (self@.contains_key(key) && self@[key].data.is_some()),
            r.is_ok() ==> r.unwrap() == self@[key].data.unwrap().pos,
            !r.is_ok() ==> r == Result::<Pos, ProxyError>::Err(ProxyError::StaleRead),
    {
        match self.cached(key) {
            Ok(d) => Ok(d.pos),
            Err(e) => Err(e),
        }
    }

    /// Cached inner size; fails with the stale-read condition when no
    /// valid snapshot exists.
    pub fn get_size(&self, key: Key) -> (r: Result<Size, ProxyError>)
        requires
            self.wf(),
        ensures
            r.is_ok() == (self@.contains_key(key) && self@[key].data.is_some()),
            r.is_ok() ==> r.unwrap() == self@[key].data.unwrap().size,
            !r.is_ok() ==> r == Result::<Size, ProxyError>::Err(ProxyError::StaleRead),
    {
        match self.cached(key) {
            Ok(d) => Ok(d.size),
            Err(e) => Err(e),
        }
    }

    /// Cached focus flag; fails with the stale-read condition when no
    /// valid snapshot exists.
    pub fn get_focus(&self, key: Key) -> (r: Result<bool, ProxyError>)
        requires
            self.wf(),
        ensures
            r.is_ok() == (self@.contains_key(key) && self@[key].data.is_some()),
            r.is_ok() ==> r.unwrap() == self@[key].data.unwrap().focus,
            !r.is_ok() ==> r == Result::<bool, ProxyError>::Err(ProxyError::StaleRead),
    {
        match self.cached(key) {
            Ok(d) => Ok(d.focus),
            Err(e) => Err(e),
        }
    }

    /// Cached minimized flag; fails with the stale-read condition when no
    /// valid snapshot exists.
    pub fn get_minimized(&self, key: Key) -> (r: Result<bool, ProxyError>)
        requires
            self.wf(),
        ensures
            r.is_ok() == (self@.contains_key(key) && self@[key].data.is_some()),
            r.is_ok() ==> r.unwrap() == self@[key].data.unwrap().minimized,
            !r.is_ok() ==> r == Result::<bool, ProxyError>::Err(ProxyError::StaleRead),
    {
        match self.cached(key) {
            Ok(d) => Ok(d.minimized),
            Err(e) => Err(e),
        }
    }

    /// Decoration flags of the queued creates, in issue order: before the
    /// next drain the host must spawn one native window per flag and hand
    /// the batch to [`Proxy::update`].
    pub fn pending_creates(&self) -> (r: Vec<bool>)
        ensures
            r@ == creates_of(self.queue()),
    {
        let n: usize = self.commands.len();
        let mut r: Vec<bool> = Vec::new();
        let mut i: usize = 0;
        proof {
            assert(self.commands@.subrange(0, n as int) =~= self.commands@);
            assert(r@ + creates_of(self.commands@.subrange(0, n as int)) =~= creates_of(
                self.commands@,
            ));
        }
        while i < n
            invariant
                i <= n,
                n == self.commands@.len(),
                r@ + creates_of(self.commands@.subrange(i as int, n as int)) == creates_of(
                    self.commands@,
                ),
            decreases n - i,
        {
            let ghost rest = self.commands@.subrange(i as int, n as int);
            proof {
                assert(rest[0] == self.commands@[i as int]);
                assert(rest.drop_first() =~= self.commands@.subrange(i as int + 1, n as int));
            }
            match &self.commands[i].kind {
                Kind::CreateWindow { decorations } => {
                    let d: bool = *decorations;
                    let ghost r0 = r@;
                    r.push(d);
                    proof {
                        assert(creates_of(rest) == seq![d] + creates_of(rest.drop_first()));
                        assert(r@ == r0.push(d));
                        assert(r0.push(d) + creates_of(rest.drop_first()) =~= r0 + (seq![d]
                            + creates_of(rest.drop_first())));
                    }
                },
                _ => {
                    proof {
                        assert(creates_of(rest) == creates_of(rest.drop_first()));
                    }
                },
            }
            i = i + 1;
        }
        proof {
            assert(self.commands@.subrange(n as int, n as int) =~= Seq::<Command>::empty());
            assert(r@ + creates_of(self.commands@.subrange(n as int, n as int)) =~= r@);
        }
        r
    }

    /// Drain: apply every queued command in issue order against the
    /// manager, then refresh every live key's snapshot from the manager's
    /// window state, and clear the queue.
    ///
    /// `fresh` holds the native windows the host spawned for this drain's
    /// creates, one per flag of [`Proxy::pending_creates`], in order, with
    /// identifiers nothing else uses.  The returned actions are what the
    /// host must replay on the real windows, in drain order.  With an
    /// empty queue this is a no-op that still refreshes the cache.
    ///
    /// A queued command naming a dead key cannot arise through the public
    /// operations and is excluded here by well-formedness, so the drain
    /// never applies a command to any window but the key's own.
    pub fn update(&mut self, manager: &mut Manager, fresh: Vec<NewWindow>) -> (actions: Vec<
        Action,
    >)
        requires
            old(self).wf(),
            old(manager).wf(),
            consistent(*old(self), *old(manager)),
            fresh@.len() == creates_of(old(self).queue()).len(),
            forall|i: int, j: int|
                0 <= i < j < fresh@.len() ==> (#[trigger] fresh@[i]).wid != (#[trigger] fresh@[j]).wid,
            forall|i: int|
                0 <= i < fresh@.len() ==> !old(manager)@.contains_key((#[trigger] fresh@[i]).wid)
                    && !old(self).uses_wid(fresh@[i].wid),
        ensures
            final(self).wf(),
            final(manager).wf(),
            consistent(*final(self), *final(manager)),
            final(manager)@ == drained(*old(self), *old(manager), fresh@).windows,
            final(self)@ == recache(
                drained(*old(self), *old(manager), fresh@).entries,
                drained(*old(self), *old(manager), fresh@).windows,
            ),
            final(self)@.dom() == drained(*old(self), *old(manager), fresh@).entries.dom(),
            actions@ == drained(*old(self), *old(manager), fresh@).actions,
            final(self).queue() == Seq::<Command>::empty(),
            final(self).next_id() == old(self).next_id(),
            final(self).live_keys() == final(self)@.dom(),
    {
        let ghost target = drained(*old(self), *old(manager), fresh@);
        let flen: usize = fresh.len();
        let mut actions: Vec<Action> = Vec::new();
        let mut j: usize = 0;
        proof {
            assert(fresh@.subrange(0, flen as int) =~= fresh@);
            lemma_map_of_dom(self.windows@);
            assert forall|p: int| 0 <= p < self.windows@.len() implies manager@.contains_key(
                (#[trigger] self.windows@[p]).1.wid,
            ) by {
                lemma_map_of_index(self.windows@, p);
                assert(self@.contains_key(self.windows@[p].0));
            }
        }
        while self.commands.len() > 0
            invariant
                flen == fresh@.len(),
                unique_keys(self.windows@),
                forall|p: int, q: int|
                    0 <= p < q < self.windows@.len() ==> (#[trigger] self.windows@[p]).1.wid != (
                    #[trigger] self.windows@[q]).1.wid,
                self.next_id == old(self).next_id(),
                1 <= self.next_id,
                forall|p: int|
                    0 <= p < self.windows@.len() ==> 0 < (#[trigger] self.windows@[p]).0
                        < self.next_id,
                forall|p: int|
                    0 <= p < self.commands@.len() ==> 0 < (#[trigger] self.commands@[p]).key
                        < self.next_id,
                queue_ok(map_of(self.windows@).dom(), self.commands@),
                forall|q: int|
                    0 <= q < self.commands@.len() && (#[trigger] self.commands@[q]).kind
                        is CreateWindow ==> !has_key(self.windows@, self.commands@[q].key) && (
                    forall|p: int|
                        0 <= p < q ==> (#[trigger] self.commands@[p]).key != self.commands@[q].key),
                forall|p: int|
                    0 <= p < self.windows@.len() ==> manager@.contains_key(
                        (#[trigger] self.windows@[p]).1.wid,
                    ),
                manager.wf(),
                j <= flen,
                creates_of(self.commands@).len() == flen - j,
                forall|p: int, q: int|
                    0 <= p < q < fresh@.len() ==> (#[trigger] fresh@[p]).wid != (
                    #[trigger] fresh@[q]).wid,
                forall|l: int|
                    j <= l < fresh@.len() ==> !manager@.contains_key((#[trigger] fresh@[l]).wid)
                        && (forall|p: int|
                        0 <= p < self.windows@.len() ==> (#[trigger] self.windows@[p]).1.wid
                            != fresh@[l].wid),
                drain_fold(
                    DrainState {
                        entries: map_of(self.windows@),
                        windows: manager@,
                        actions: actions@,
                    },
                    self.commands@,
                    fresh@.subrange(j as int, flen as int),
                ) == target,
            decreases self.commands@.len(),
        {
            let ghost cmds0 = self.commands@;
            let ghost entries0 = self.windows@;
            let ghost mgr0 = manager@;
            let ghost acts0 = actions@;
            let ghost j0 = j as int;
            let ghost fr = fresh@.subrange(j0, flen as int);
            let ghost st_cur = DrainState {
                entries: map_of(entries0),
                windows: mgr0,
                actions: acts0,
            };
            let c = self.commands.remove(0);
            proof {
                assert(c == cmds0[0]);
                assert(self.commands@ =~= cmds0.drop_first());
                assert forall|p: int| 0 <= p < self.commands@.len() implies 0 < (
                #[trigger] self.commands@[p]).key < self.next_id by {
                    assert(self.commands@[p] == cmds0[p + 1]);
                }
                assert forall|q: int|
                    0 <= q < self.commands@.len() && (#[trigger] self.commands@[q]).kind
                        is CreateWindow implies !has_key(entries0, self.commands@[q].key) && (
                forall|p: int|
                    0 <= p < q ==> (#[trigger] self.commands@[p]).key != self.commands@[q].key) by {
                    assert(self.commands@[q] == cmds0[q + 1]);
                    assert(!has_key(entries0, cmds0[q + 1].key));
                    assert forall|p: int| 0 <= p < q implies (#[trigger] self.commands@[p]).key
                        != self.commands@[q].key by {
                        assert(self.commands@[p] == cmds0[p + 1]);
                        assert(cmds0[p + 1].key != cmds0[q + 1].key);
                    }
                }
                assert(queue_ok(map_of(entries0).dom(), cmds0));
            }
            let Command { key, kind } = c;
            match kind {
                Kind::CreateWindow { decorations: _ } => {
                    proof {
                        assert(cmds0[0].kind is CreateWindow);
                        assert(creates_of(cmds0) == seq![cmds0[0].kind->CreateWindow_decorations]
                            + creates_of(cmds0.drop_first()));
                        assert(creates_of(cmds0).len() >= 1);
                        assert(j0 < flen as int);
                        assert(!has_key(entries0, key));
                    }
                    let nw = fresh[j];
                    j = j + 1;
                    let entry = CacheEntry { wid: nw.wid, data: None };
                    proof {
                        assert(nw == fresh@[j0]);
                        lemma_map_of_push(self.windows@, key, entry);
                    }
                    self.windows.push((key, entry));
                    manager.add_window(nw);
                    proof {
                        let s = self.windows@;
                        assert(s == entries0.push((key, entry)));
                        assert forall|p: int, q: int| 0 <= p < q < s.len() implies (
                        #[trigger] s[p]).0 != (#[trigger] s[q]).0 by {
                            if q == s.len() - 1 {
                                assert(s[p] == entries0[p]);
                            } else {
                                assert(s[p] == entries0[p]);
                                assert(s[q] == entries0[q]);
                            }
                        }
                        assert forall|p: int, q: int| 0 <= p < q < s.len() implies (
                        #[trigger] s[p]).1.wid != (#[trigger] s[q]).1.wid by {
                            if q == s.len() - 1 {
                                assert(s[p] == entries0[p]);
                                assert(entries0[p].1.wid != fresh@[j0].wid);
                            } else {
                                assert(s[p] == entries0[p]);
                                assert(s[q] == entries0[q]);
                            }
                        }
                        assert forall|q: int|
                            0 <= q < self.commands@.len() && (#[trigger] self.commands@[q]).kind
                                is CreateWindow implies !has_key(s, self.commands@[q].key) by {
                            assert(!has_key(entries0, self.commands@[q].key));
                            assert(self.commands@[q] == cmds0[q + 1]);
                            assert(cmds0[0].key != cmds0[q + 1].key);
                            if has_key(s, self.commands@[q].key) {
                                let x = choose|x: int|
                                    0 <= x < s.len() && (#[trigger] s[x]).0 == self.commands@[q].key;
                                if x < entries0.len() {
                                    assert(entries0[x].0 == self.commands@[q].key);
                                } else {
                                    assert(s[x].0 == key);
                                }
                            }
                        }
                        assert forall|l: int|
                            j as int <= l < fresh@.len() implies !manager@.contains_key(
                            (#[trigger] fresh@[l]).wid,
                        ) && (forall|p: int|
                            0 <= p < s.len() ==> (#[trigger] s[p]).1.wid != fresh@[l].wid) by {
                            assert(fresh@[l].wid != fresh@[j0].wid);
                            assert forall|p: int| 0 <= p < s.len() implies (#[trigger] s[p]).1.wid
                                != fresh@[l].wid by {
                                if p < entries0.len() {
                                    assert(s[p] == entries0[p]);
                                } else {
                                    assert(s[p].1.wid == fresh@[j0].wid);
                                }
                            }
                        }
                        assert(map_of(s).dom() =~= map_of(entries0).dom().insert(key));
                        assert(fr[0] == fresh@[j0]);
                        assert(fr.drop_first() =~= fresh@.subrange(j as int, flen as int));
                        assert(drain_step_create(st_cur, key, fr[0]) == (DrainState {
                            entries: map_of(s),
                            windows: manager@,
                            actions: actions@,
                        }));
                        assert(drain_fold(st_cur, cmds0, fr) == drain_fold(
                            drain_step_create(st_cur, key, fr[0]),
                            cmds0.drop_first(),
                            fr.drop_first(),
                        ));
                    }
                },
                Kind::DestroyWindow => {
                    proof {
                        lemma_map_of_dom(entries0);
                        assert(map_of(entries0).dom().contains(key));
                    }
                    let idx = match index_of(&self.windows, key) {
                        Some(i) => i,
                        None => {
                            proof {
                                assert(false);
                            }
                            0
                        },
                    };
                    proof {
                        lemma_map_of_index(entries0, idx as int);
                        lemma_map_of_remove(entries0, idx as int);
                    }
                    let wid: u64 = self.windows[idx].1.wid;
                    self.windows.remove(idx);
                    manager.destroy(wid);
                    actions.push(Action::Close { wid });
                    proof {
                        let s = self.windows@;
                        assert(s == entries0.remove(idx as int));
                        assert(map_of(entries0)[key].wid == wid);
                        assert forall|p: int, q: int| 0 <= p < q < s.len() implies (
                        #[trigger] s[p]).1.wid != (#[trigger] s[q]).1.wid by {
                            let p0: int = if p < idx as int { p } else { p + 1 };
                            let q0: int = if q < idx as int { q } else { q + 1 };
                            assert(s[p] == entries0[p0]);
                            assert(s[q] == entries0[q0]);
                        }
                        assert forall|p: int| 0 <= p < s.len() implies 0 < (#[trigger] s[p]).0
                            < self.next_id && manager@.contains_key(s[p].1.wid) && (forall|l: int|
                            j as int <= l < fresh@.len() ==> s[p].1.wid != (
                            #[trigger] fresh@[l]).wid) by {
                            let p0: int = if p < idx as int { p } else { p + 1 };
                            assert(s[p] == entries0[p0]);
                            assert(entries0[p0].1.wid != entries0[idx as int].1.wid);
                            assert(mgr0.contains_key(entries0[p0].1.wid));
                        }
                        assert forall|q: int|
                            0 <= q < self.commands@.len() && (#[trigger] self.commands@[q]).kind
                                is CreateWindow implies !has_key(s, self.commands@[q].key) by {
                            assert(!has_key(entries0, self.commands@[q].key));
                            if has_key(s, self.commands@[q].key) {
                                let x = choose|x: int|
                                    0 <= x < s.len() && (#[trigger] s[x]).0 == self.commands@[q].key;
                                let x0: int = if x < idx as int { x } else { x + 1 };
                                assert(entries0[x0].0 == self.commands@[q].key);
                            }
                        }
                        assert(map_of(s).dom() =~= map_of(entries0).dom().remove(key));
                        assert(drain_step(st_cur, cmds0[0]) == (DrainState {
                            entries: map_of(s),
                            windows: manager@,
                            actions: actions@,
                        }));
                        assert(drain_fold(st_cur, cmds0, fr) == drain_fold(
                            drain_step(st_cur, cmds0[0]),
                            cmds0.drop_first(),
                            fr,
                        ));
                    }
                },
                Kind::ShowWindow => {
                    proof {
                        lemma_map_of_dom(entries0);
                    }
                    let idx = match index_of(&self.windows, key) {
                        Some(i) => i,
                        None => {
                            proof {
                                assert(false);
                            }
                            0
                        },
                    };
                    proof {
                        lemma_map_of_index(entries0, idx as int);
                    }
                    let wid: u64 = self.windows[idx].1.wid;
                    actions.push(Action::Show { wid });
                    proof {
                        assert(drain_step(st_cur, cmds0[0]) == (DrainState {
                            entries: map_of(self.windows@),
                            windows: manager@,
                            actions: actions@,
                        }));
                        assert(drain_fold(st_cur, cmds0, fr) == drain_fold(
                            drain_step(st_cur, cmds0[0]),
                            cmds0.drop_first(),
                            fr,
                        ));
                    }
                },
                Kind::SetPos(pos) => {
                    proof {
                        lemma_map_of_dom(entries0);
                    }
                    let idx = match index_of(&self.windows, key) {
                        Some(i) => i,
                        None => {
                            proof {
                                assert(false);
                            }
                            0
                        },
                    };
                    proof {
                        lemma_map_of_index(entries0, idx as int);
                    }
                    let wid: u64 = self.windows[idx].1.wid;
                    manager.on_moved(wid, pos);
                    actions.push(Action::SetPos { wid, pos });
                    proof {
                        assert(manager@.dom() =~= mgr0.dom());
                        assert(drain_step(st_cur, cmds0[0]) == (DrainState {
                            entries: map_of(self.windows@),
                            windows: manager@,
                            actions: actions@,
                        }));
                        assert(drain_fold(st_cur, cmds0, fr) == drain_fold(
                            drain_step(st_cur, cmds0[0]),
                            cmds0.drop_first(),
                            fr,
                        ));
                    }
                },
                Kind::SetSize(size) => {
                    proof {
                        lemma_map_of_dom(entries0);
                    }
                    let idx = match index_of(&self.windows, key) {
                        Some(i) => i,
                        None => {
                            proof {
                                assert(false);
                            }
                            0
                        },
                    };
                    proof {
                        lemma_map_of_index(entries0, idx as int);
                    }
                    let wid: u64 = self.windows[idx].1.wid;
                    manager.apply_set_size(wid, size);
                    actions.push(Action::SetSize { wid, size });
                    proof {
                        assert(manager@.dom() =~= mgr0.dom());
                        assert(drain_step(st_cur, cmds0[0]) == (DrainState {
                            entries: map_of(self.windows@),
                            windows: manager@,
                            actions: actions@,
                        }));
                        assert(drain_fold(st_cur, cmds0, fr) == drain_fold(
                            drain_step(st_cur, cmds0[0]),
                            cmds0.drop_first(),
                            fr,
                        ));
                    }
                },
                Kind::SetFocus => {
                    proof {
                        lemma_map_of_dom(entries0);
                    }
                    let idx = match index_of(&self.windows, key) {
                        Some(i) => i,
                        None => {
                            proof {
                                assert(false);
                            }
                            0
                        },
                    };
                    proof {
                        lemma_map_of_index(entries0, idx as int);
                    }
                    let wid: u64 = self.windows[idx].1.wid;
                    manager.set_focus(wid, true);
                    actions.push(Action::Focus { wid });
                    proof {
                        assert(manager@.dom() =~= mgr0.dom());
                        assert(drain_step(st_cur, cmds0[0]) == (DrainState {
                            entries: map_of(self.windows@),
                            windows: manager@,
                            actions: actions@,
                        }));
                        assert(drain_fold(st_cur, cmds0, fr) == drain_fold(
                            drain_step(st_cur, cmds0[0]),
                            cmds0.drop_first(),
                            fr,
                        ));
                    }
                },
                Kind::SetTitle(title) => {
                    proof {
                        lemma_map_of_dom(entries0);
                    }
                    let idx = match index_of(&self.windows, key) {
                        Some(i) => i,
                        None => {
                            proof {
                                assert(false);
                            }
                            0
                        },
                    };
                    proof {
                        lemma_map_of_index(entries0, idx as int);
                    }
                    let wid: u64 = self.windows[idx].1.wid;
                    actions.push(Action::Title { wid, title });
                    proof {
                        assert(drain_step(st_cur, cmds0[0]) == (DrainState {
                            entries: map_of(self.windows@),
                            windows: manager@,
                            actions: actions@,
                        }));
                        assert(drain_fold(st_cur, cmds0, fr) == drain_fold(
                            drain_step(st_cur, cmds0[0]),
                            cmds0.drop_first(),
                            fr,
                        ));
                    }
                },
            }
        }
        proof {
            let st_end = DrainState {
                entries: map_of(self.windows@),
                windows: manager@,
                actions: actions@,
            };
            assert(drain_fold(st_end, self.commands@, fresh@.subrange(j as int, flen as int))
                == st_end);
            assert(map_of(self.windows@) == target.entries);
            assert(manager@ == target.windows);
            assert(actions@ == target.actions);
        }
        let ghost entries_a = self.windows@;
        let ghost mgr_a = manager@;
        let n: usize = self.windows.len();
        let mut i: usize = 0;
        while i < n
            invariant
                i <= n,
                n == self.windows@.len(),
                self.windows@.len() == entries_a.len(),
                manager@ == mgr_a,
                manager.wf(),
                unique_keys(entries_a),
                map_of(entries_a) == target.entries,
                self.commands@.len() == 0,
                self.next_id == old(self).next_id(),
                1 <= self.next_id,
                forall|l: int|
                    0 <= l < n ==> (#[trigger] self.windows@[l]).0 == entries_a[l].0
                        && self.windows@[l].1.wid == entries_a[l].1.wid,
                forall|p: int|
                    0 <= p < entries_a.len() ==> 0 < (#[trigger] entries_a[p]).0 < self.next_id,
                forall|p: int, q: int|
                    0 <= p < q < entries_a.len() ==> (#[trigger] entries_a[p]).1.wid != (
                    #[trigger] entries_a[q]).1.wid,
                forall|l: int|
                    0 <= l < entries_a.len() ==> manager@.contains_key(
                        (#[trigger] entries_a[l]).1.wid,
                    ),
                forall|l: int| i <= l < n ==> #[trigger] self.windows@[l] == entries_a[l],
                forall|l: int|
                    0 <= l < i ==> (#[trigger] self.windows@[l]).1.data == Some(
                        snap(mgr_a[entries_a[l].1.wid]),
                    ),
            decreases n - i,
        {
            let wid: u64 = self.windows[i].1.wid;
            let key: u64 = self.windows[i].0;
            proof {
                assert(self.windows@[i as int] == entries_a[i as int]);
                assert(manager@.contains_key(wid));
            }
            let vp = match manager.viewport(wid) {
                Some(v) => v,
                None => {
                    proof {
                        assert(false);
                    }
                    Viewport::initial(Pos { x: 0, y: 0 }, Size { width: 0, height: 0 })
                },
            };
            let data = CacheData {
                pos: vp.pos,
                size: vp.size,
                focus: vp.focus,
                minimized: vp.minimized,
            };
            *vec_index_mut(&mut self.windows, i) = (key, CacheEntry { wid, data: Some(data) });
            i = i + 1;
        }
        proof {
            let s = self.windows@;
            assert forall|p: int, q: int| 0 <= p < q < s.len() implies (#[trigger] s[p]).0 != (
            #[trigger] s[q]).0 by {
                assert(entries_a[p].0 != entries_a[q].0);
            }
            assert forall|p: int, q: int| 0 <= p < q < s.len() implies (#[trigger] s[p]).1.wid != (
            #[trigger] s[q]).1.wid by {
                assert(entries_a[p].1.wid != entries_a[q].1.wid);
            }
            lemma_map_of_dom(s);
            lemma_map_of_dom(entries_a);
            assert forall|k: Key| map_of(s).contains_key(k) <==> target.entries.contains_key(
                k,
            ) by {
                if has_key(s, k) {
                    let x = choose|x: int| 0 <= x < s.len() && (#[trigger] s[x]).0 == k;
                    assert(entries_a[x].0 == k);
                    assert(has_key(entries_a, k));
                }
                if has_key(entries_a, k) {
                    let x = choose|x: int|
                        0 <= x < entries_a.len() && (#[trigger] entries_a[x]).0 == k;
                    assert(s[x].0 == k);
                    assert(has_key(s, k));
                }
            }
            assert forall|k: Key| #[trigger] map_of(s).contains_key(k) implies map_of(s)[k]
                == recache(target.entries, target.windows)[k] by {
                let x = choose|x: int| 0 <= x < s.len() && (#[trigger] s[x]).0 == k;
                lemma_map_of_index(s, x);
                lemma_map_of_index(entries_a, x);
                assert(target.entries[k].wid == entries_a[x].1.wid);
                assert(s[x].1.data == Some(snap(mgr_a[entries_a[x].1.wid])));
                assert(s[x].1.wid == entries_a[x].1.wid);
            }
            assert(map_of(s) =~= recache(target.entries, target.windows));
            assert(map_of(s).dom() =~= target.entries.dom());
            assert(self.commands@ =~= Seq::<Command>::empty());
            assert(queue_ok(map_of(s).dom(), self.commands@));
            assert(live_after(map_of(s).dom(), self.commands@) == map_of(s).dom());
            assert forall|k: Key| #[trigger] map_of(s).contains_key(k) implies manager@
                .contains_key(map_of(s)[k].wid) by {
                let x = choose|x: int| 0 <= x < s.len() && (#[trigger] s[x]).0 == k;
                lemma_map_of_index(s, x);
            }
        }
        actions
    }

    /// Whether every key here stands for a window the manager owns: the
    /// host's check before a drain.
    pub fn check_consistent(&self, manager: &Manager) -> (r: bool)
        requires
            self.wf(),
        ensures
            r == consistent(*self, *manager),
    {
        proof {
            lemma_map_of_dom(self.windows@);
        }
        let n: usize = self.windows.len();
        let mut i: usize = 0;
        while i < n
            invariant
                i <= n,
                n == self.windows@.len(),
                self.wf(),
                forall|l: int|
                    0 <= l < i ==> manager@.contains_key((#[trigger] self.windows@[l]).1.wid),
            decreases n - i,
        {
            if !manager.contains_window(self.windows[i].1.wid) {
                proof {
                    lemma_map_of_index(self.windows@, i as int);
                    assert(self@.contains_key(self.windows@[i as int].0));
                }
                return false;
            }
            i = i + 1;
        }
        proof {
            assert forall|k: Key| #[trigger] self@.contains_key(k) implies manager@.contains_key(
                self@[k].wid,
            ) by {
                let x = choose|x: int|
                    0 <= x < self.windows@.len() && (#[trigger] self.windows@[x]).0 == k;
                lemma_map_of_index(self.windows@, x);
            }
        }
        true
    }

    /// Whether some key already stands for this native window identifier:
    /// the host's freshness check for newly spawned windows.
    pub fn uses_window_id(&self, wid: u64) -> (r: bool)
        ensures
            r == self.uses_wid(wid),
    {
        let n: usize = self.windows.len();
        let mut i: usize = 0;
        while i < n
            invariant
                i <= n,
                n == self.windows@.len(),
                forall|l: int| 0 <= l < i ==> (#[trigger] self.windows@[l]).1.wid != wid,
            decreases n - i,
        {
            if self.windows[i].1.wid == wid {
                return true;
            }
            i = i + 1;
        }
        false
    }
}

/// Law: minting is fresh.  In a well-formed proxy the next key to be
/// minted is never the reserved `0` and is strictly above every live key,
/// so the keys successive creates hand out are strictly increasing and
/// never collide with a live one.  [`Proxy::create_window`]'s contract
/// returns exactly this key and raises the counter past it.
pub proof fn lemma_minted_key_fresh(p: Proxy)
    requires
        p.wf(),
    ensures
        p.next_id() != 0,
        !p.live_keys().contains(p.next_id()),
        forall|k: Key| #[trigger] p.live_keys().contains(k) ==> 0 < k < p.next_id(),
{
    lemma_map_of_dom(p.entries());
    lemma_live_after_members(p@.dom(), p.queue());
    assert forall|k: Key| #[trigger] p.live_keys().contains(k) implies 0 < k < p.next_id() by {
        if p@.dom().contains(k) {
            let i = choose|i: int| 0 <= i < p.entries().len() && (#[trigger] p.entries()[i]).0 == k;
            assert(0 < p.entries()[i].0 < p.next_id());
        } else {
            let i = choose|i: int| 0 <= i < p.queue().len() && (#[trigger] p.queue()[i]).key == k;
            assert(0 < p.queue()[i].key < p.next_id());
        }
    }
}

/// Law: one drain leaves exactly the net effect of the queue.  The keys
/// live after [`Proxy::update`] are those that were bound before plus
/// those the queued creates mint, minus those the queued destroys retire —
/// and the drained associations (one native window per key) cover exactly
/// that set.
pub proof fn lemma_update_net_effect(p: Proxy, m: Manager, fresh: Seq<NewWindow>)
    requires
        p.wf(),
    ensures
        drained(p, m, fresh).entries.dom() =~= p@.dom().union(created_keys(p.queue()))
            .difference(destroyed_keys(p.queue())),
{
    lemma_map_of_dom(p.entries());
    assert(creates_fresh(p@.dom(), p.queue())) by {
        assert forall|j: int|
            0 <= j < p.queue().len() && (#[trigger] p.queue()[j]).kind is CreateWindow implies !p@
            .dom().contains(p.queue()[j].key) && (forall|i: int|
            0 <= i < j ==> (#[trigger] p.queue()[i]).key != p.queue()[j].key) by {
            assert(!has_key(p.entries(), p.queue()[j].key));
        }
    }
    lemma_drain_net_effect(p@.dom(), p.queue());
    lemma_drain_fold_dom(
        DrainState { entries: p@, windows: m@, actions: Seq::empty() },
        p.queue(),
        fresh,
    );
}

/// Law: a drained resize is exactly visible.  When the whole queue is one
/// resize of a bound key, the drain resizes that key's window to the
/// commanded size and the refreshed snapshot reports it; before the drain
/// [`Proxy::set_size`] leaves the snapshot absent, so a read fails rather
/// than answer stale.
pub proof fn lemma_set_size_then_drain(p: Proxy, m: Manager, key: Key, size: Size, fresh: Seq<NewWindow>)
    requires
        p.wf(),
        p@.contains_key(key),
        m@.contains_key(p@[key].wid),
        p.queue() == seq![Command { key, kind: Kind::SetSize(size) }],
    ensures
        drained(p, m, fresh).entries == p@,
        drained(p, m, fresh).windows[p@[key].wid].size == size,
        drained(p, m, fresh).windows[p@[key].wid].outlet == Outlet::Surface,
        recache(drained(p, m, fresh).entries, drained(p, m, fresh).windows)[key].data == Some(
            snap(drained(p, m, fresh).windows[p@[key].wid]),
        ),
{
    let st0 = DrainState { entries: p@, windows: m@, actions: Seq::empty() };
    let c = Command { key, kind: Kind::SetSize(size) };
    assert(p.queue()[0] == c);
    assert(p.queue().drop_first() =~= Seq::<Command>::empty());
    assert(drain_fold(st0, p.queue(), fresh) == drain_fold(
        drain_step(st0, c),
        p.queue().drop_first(),
        fresh,
    ));
    assert(drain_fold(drain_step(st0, c), Seq::<Command>::empty(), fresh) == drain_step(st0, c));
}

/// Law: a drained destroy retires the key and its native window.  When
/// the whole queue is one destroy of a bound key, the drain removes both
/// the key's association and its window from the manager; and in general
/// any key a queued destroy names is not live after the drain, so every
/// later operation on it is refused.
pub proof fn lemma_destroy_then_drain(p: Proxy, m: Manager, key: Key, fresh: Seq<NewWindow>)
    requires
        p.wf(),
        p@.contains_key(key),
        p.queue() == seq![Command { key, kind: Kind::DestroyWindow }],
    ensures
        drained(p, m, fresh).entries == p@.remove(key),
        drained(p, m, fresh).windows == m@.remove(p@[key].wid),
        !drained(p, m, fresh).entries.contains_key(key),
{
    let st0 = DrainState { entries: p@, windows: m@, actions: Seq::empty() };
    let c = Command { key, kind: Kind::DestroyWindow };
    assert(p.queue()[0] == c);
    assert(p.queue().drop_first() =~= Seq::<Command>::empty());
    assert(drain_fold(st0, p.queue(), fresh) == drain_fold(
        drain_step(st0, c),
        p.queue().drop_first(),
        fresh,
    ));
    assert(drain_fold(drain_step(st0, c), Seq::<Command>::empty(), fresh) == drain_step(st0, c));
}

/// Law: any key a queued destroy retires is dead after the drain.
pub proof fn lemma_destroyed_key_not_live(p: Proxy, m: Manager, fresh: Seq<NewWindow>, key: Key)
    requires
        p.wf(),
        destroyed_keys(p.queue()).contains(key),
    ensures
        !drained(p, m, fresh).entries.dom().contains(key),
{
    lemma_update_net_effect(p, m, fresh);
}

} // verus!
