//! The focus-order adapter.
//!
//! The GUI library keeps an ordered record of window focus history.  The
//! host snapshots that stack once per frame as plain [`FocusEntry`] values,
//! and a [`FocusOrder`] walks the snapshot, emitting a `(name, key)` pair
//! for every window that owns its own viewport, in stored stack order, and
//! skipping the rest.  The walk is a one-way pass over a fixed snapshot:
//! nothing is re-sorted, re-read or emitted twice.

use vstd::prelude::*;

use crate::proxy::Key;

verus! {

/// One entry of the GUI library's focus stack, as the host snapshots it.
#[derive(Debug)]
pub struct FocusEntry {
    /// The window's display name.
    pub name: String,
    /// Whether the window owns its own viewport, as opposed to being a
    /// child panel inside another window's viewport.
    pub viewport_owned: bool,
    /// The key of the owned viewport; meaningful only when owned.
    pub viewport_id: Key,
}

/// The pairs the adapter emits for a stack: one per viewport-owning entry,
/// in stored order.
pub open spec fn focus_seq(s: Seq<FocusEntry>) -> Seq<(String, Key)>
    decreases s.len(),
{
    if s.len() == 0 {
        Seq::empty()
    } else if s[0].viewport_owned {
        seq![(s[0].name, s[0].viewport_id)] + focus_seq(s.drop_first())
    } else {
        focus_seq(s.drop_first())
    }
}

/// A one-way walk over a focus-stack snapshot.
pub struct FocusOrder {
    entries: Vec<FocusEntry>,
    idx: usize,
}

/// Begin walking a focus-stack snapshot.
pub fn focus_order(entries: Vec<FocusEntry>) -> (r: FocusOrder)
    ensures
        r.wf(),
        r.remaining() == entries@,
{
    FocusOrder { entries, idx: 0 }
}

impl FocusOrder {
    /// The walk never stands past the end of its snapshot.
    pub closed spec fn wf(self) -> bool {
        self.idx <= self.entries@.len()
    }

    /// The part of the snapshot not yet walked.
    pub closed spec fn remaining(self) -> Seq<FocusEntry> {
        if self.idx <= self.entries@.len() {
            self.entries@.subrange(self.idx as int, self.entries@.len() as int)
        } else {
            Seq::empty()
        }
    }

    /// The next viewport-owning entry's `(name, key)`, or nothing once no
    /// owning entry is left; skipped entries are never emitted.
    pub fn next(&mut self) -> (r: Option<(String, Key)>)
        requires
            old(self).wf(),
        ensures
            final(self).wf(),
            r.is_some() == (focus_seq(old(self).remaining()).len() > 0),
            r.is_some() ==> r.unwrap() == focus_seq(old(self).remaining())[0] && focus_seq(
                final(self).remaining(),
            ) == focus_seq(old(self).remaining()).drop_first(),
            !r.is_some() ==> final(self).remaining().len() == 0 && focus_seq(
                old(self).remaining(),
            ).len() == 0,
    {
        let n: usize = self.entries.len();
        while self.idx < n
            invariant
                self.idx <= n,
                n == self.entries@.len(),
                self.entries@ == old(self).entries@,
                focus_seq(self.remaining()) == focus_seq(old(self).remaining()),
            decreases n - self.idx,
        {
            let ghost rem0 = self.remaining();
            proof {
                assert(rem0[0] == self.entries@[self.idx as int]);
                assert(rem0.drop_first() =~= self.entries@.subrange(
                    self.idx as int + 1,
                    n as int,
                ));
            }
            if self.entries[self.idx].viewport_owned {
                let name = self.entries[self.idx].name.clone();
                let key: Key = self.entries[self.idx].viewport_id;
                self.idx = self.idx + 1;
                proof {
                    assert(focus_seq(rem0) == seq![(rem0[0].name, rem0[0].viewport_id)]
                        + focus_seq(self.remaining()));
                    assert(focus_seq(rem0)[0] == (rem0[0].name, rem0[0].viewport_id));
                    assert(focus_seq(rem0).drop_first() =~= focus_seq(self.remaining()));
                }
                return Some((name, key));
            }
            self.idx = self.idx + 1;
            proof {
                assert(focus_seq(rem0) == focus_seq(self.remaining()));
            }
        }
        proof {
            assert(self.remaining() =~= Seq::<FocusEntry>::empty());
        }
        None
    }

    /// Bounds on how many pairs are left: at least none, at most one per
    /// entry not yet walked.
    pub fn size_hint(&self) -> (r: (usize, Option<usize>))
        requires
            self.wf(),
        ensures
            r.0 == 0usize,
            r.1.is_some(),
            r.1.unwrap() as int == self.remaining().len(),
    {
        (0, Some(self.entries.len() - self.idx))
    }
}

/// Law: the adapter's output for a stack is exactly its viewport-owning
/// entries, in stored order.  Every emitted pair carries the name and key
/// of an owning entry, an empty stack (and, more generally, a stack with
/// no owning entry) yields no pairs, and the pair count never exceeds the
/// stack length.
pub proof fn lemma_focus_order_emits_owned(s: Seq<FocusEntry>)
    ensures
        focus_seq(s).len() <= s.len(),
        (forall|i: int| 0 <= i < s.len() ==> !(#[trigger] s[i]).viewport_owned) ==> focus_seq(
            s,
        ).len() == 0,
        forall|p: int|
            0 <= p < focus_seq(s).len() ==> exists|i: int|
                0 <= i < s.len() && (#[trigger] s[i]).viewport_owned && #[trigger] focus_seq(s)[p]
                    == (s[i].name, s[i].viewport_id),
    decreases s.len(),
{
    if s.len() > 0 {
        lemma_focus_order_emits_owned(s.drop_first());
        if (forall|i: int| 0 <= i < s.len() ==> !(#[trigger] s[i]).viewport_owned) {
            assert(!s[0].viewport_owned);
            assert forall|i: int| 0 <= i < s.drop_first().len() implies !(#[trigger] s
                .drop_first()[i]).viewport_owned by {
                assert(s.drop_first()[i] == s[i + 1]);
            }
        }
        assert forall|p: int| 0 <= p < focus_seq(s).len() implies exists|i: int|
            0 <= i < s.len() && (#[trigger] s[i]).viewport_owned && #[trigger] focus_seq(s)[p] == (
            s[i].name,
            s[i].viewport_id,
        ) by {
            if s[0].viewport_owned && p == 0 {
                assert(focus_seq(s)[0] == (s[0].name, s[0].viewport_id));
            } else {
                let p0: int = if s[0].viewport_owned {
                    p - 1
                } else {
                    p
                };
                assert(focus_seq(s)[p] == focus_seq(s.drop_first())[p0]);
                let i = choose|i: int|
                    0 <= i < s.drop_first().len() && (#[trigger] s.drop_first()[i]).viewport_owned
                        && focus_seq(s.drop_first())[p0] == (
                    s.drop_first()[i].name,
                    s.drop_first()[i].viewport_id,
                    );
                assert(s.drop_first()[i] == s[i + 1]);
                assert(s[i + 1].viewport_owned && focus_seq(s)[p] == (
                    s[i + 1].name,
                    s[i + 1].viewport_id,
                ));
            }
        }
    }
}

/// Law: the order is a pass-through.  Prepending a viewport-owning entry
/// puts its pair first and shifts nothing else; prepending a non-owning
/// entry changes nothing.
pub proof fn lemma_focus_order_pass_through(e: FocusEntry, s: Seq<FocusEntry>)
    ensures
        e.viewport_owned ==> focus_seq(seq![e] + s) == seq![(e.name, e.viewport_id)]
            + focus_seq(s),
        !e.viewport_owned ==> focus_seq(seq![e] + s) == focus_seq(s),
{
    let t = seq![e] + s;
    assert(t[0] == e);
    assert(t.drop_first() =~= s);
}

} // verus!
