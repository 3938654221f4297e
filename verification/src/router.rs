//! The group router: which data channels belong to which group, and where a
//! payload sent to a group goes.
//!
//! A channel is known by its handle. Two handles are the same channel exactly
//! when they are the same number; nothing else about a channel is compared.

use crate::seqs::{lemma_filter_holds, lemma_filter_no_duplicates};
use crate::text::same_text;
use vstd::prelude::*;

verus! {

/// The identity of a data channel.
pub type ChannelHandle = u64;

/// One channel's membership in one group.
#[derive(Debug)]
pub struct Membership {
    pub group: String,
    pub channel: ChannelHandle,
}

/// A [`Membership`] as a mathematical value.
pub struct MemberView {
    pub group: Seq<char>,
    pub channel: ChannelHandle,
}

impl View for Membership {
    type V = MemberView;

    open spec fn view(&self) -> MemberView {
        MemberView { group: self.group@, channel: self.channel }
    }
}

impl DeepView for Membership {
    type V = MemberView;

    open spec fn deep_view(&self) -> MemberView {
        self@
    }
}

/// The membership table as a mathematical value: the memberships in the
/// order in which they were made.
pub struct RouterView {
    pub members: Seq<MemberView>,
}

/// Holds of every membership but the one of `channel` in `group`.
pub open spec fn other_than(group: Seq<char>, channel: ChannelHandle) -> spec_fn(
    MemberView,
) -> bool {
    |m: MemberView| !(m.group == group && m.channel == channel)
}

/// Holds of the memberships of every channel but `channel`.
pub open spec fn not_of_channel(channel: ChannelHandle) -> spec_fn(MemberView) -> bool {
    |m: MemberView| m.channel != channel
}

/// Holds of the memberships in `group`.
pub open spec fn in_group(group: Seq<char>) -> spec_fn(MemberView) -> bool {
    |m: MemberView| m.group == group
}

/// The channel of a membership.
pub open spec fn channel_of() -> spec_fn(MemberView) -> ChannelHandle {
    |m: MemberView| m.channel
}

impl RouterView {
    /// The table without memberships.
    pub open spec fn empty() -> RouterView {
        RouterView { members: Seq::empty() }
    }

    /// Whether `channel` is joined to `group`.
    pub open spec fn is_member(self, group: Seq<char>, channel: ChannelHandle) -> bool {
        self.members.contains(MemberView { group, channel })
    }

    /// No membership is recorded twice.
    pub open spec fn wf(self) -> bool {
        self.members.no_duplicates()
    }

    /// The table after `channel` joined `group`. Joining again changes
    /// nothing.
    pub open spec fn join(self, group: Seq<char>, channel: ChannelHandle) -> RouterView {
        if self.is_member(group, channel) {
            self
        } else {
            RouterView { members: self.members.push(MemberView { group, channel }) }
        }
    }

    /// The table after `channel` left `group`.
    pub open spec fn leave(self, group: Seq<char>, channel: ChannelHandle) -> RouterView {
        RouterView { members: self.members.filter(other_than(group, channel)) }
    }

    /// The table after `channel` left every group.
    pub open spec fn remove_channel(self, channel: ChannelHandle) -> RouterView {
        RouterView { members: self.members.filter(not_of_channel(channel)) }
    }

    /// The channels joined to `group`, in the order in which they joined.
    pub open spec fn targets(self, group: Seq<char>) -> Seq<ChannelHandle> {
        self.members.filter(in_group(group)).map_values(channel_of())
    }
}

impl RouterView {
    /// Joining keeps the table free of duplicates and makes the channel a
    /// target of the group.
    pub proof fn lemma_join(self, group: Seq<char>, channel: ChannelHandle)
        ensures
            self.wf() ==> self.join(group, channel).wf(),
            self.join(group, channel).is_member(group, channel),
            forall|g: Seq<char>, c: ChannelHandle|
                self.join(group, channel).is_member(g, c) <==> self.is_member(g, c) || (g
                    == group && c == channel),
    {
        let m = MemberView { group, channel };
        let after = self.join(group, channel);
        if !self.is_member(group, channel) {
            assert(after.members.last() == m);
            assert forall|g: Seq<char>, c: ChannelHandle|
                after.is_member(g, c) <==> self.is_member(g, c) || (g == group && c
                    == channel) by {
                let x = MemberView { group: g, channel: c };
                if after.members.contains(x) {
                    let i = choose|i: int| 0 <= i < after.members.len() && after.members[i] == x;
                    if i < self.members.len() {
                        assert(self.members[i] == x);
                    }
                }
                if self.members.contains(x) {
                    let i = choose|i: int| 0 <= i < self.members.len() && self.members[i] == x;
                    assert(after.members[i] == x);
                }
            }
            if self.wf() {
                assert forall|i: int, j: int|
                    0 <= i < after.members.len() && 0 <= j < after.members.len() && i
                        != j implies after.members[i] != after.members[j] by {
                    if i < self.members.len() && j == self.members.len() {
                        assert(self.members.contains(self.members[i]));
                    }
                    if j < self.members.len() && i == self.members.len() {
                        assert(self.members.contains(self.members[j]));
                    }
                }
            }
        }
    }

    /// Leaving keeps the table free of duplicates and takes away that one
    /// membership and no other.
    pub proof fn lemma_leave(self, group: Seq<char>, channel: ChannelHandle)
        ensures
            self.wf() ==> self.leave(group, channel).wf(),
            !self.leave(group, channel).is_member(group, channel),
            forall|g: Seq<char>, c: ChannelHandle|
                self.leave(group, channel).is_member(g, c) <==> self.is_member(g, c) && !(g
                    == group && c == channel),
    {
        if self.wf() {
            lemma_filter_no_duplicates(self.members, other_than(group, channel));
        }
        assert forall|g: Seq<char>, c: ChannelHandle|
            self.leave(group, channel).is_member(g, c) <==> self.is_member(g, c) && !(g
                == group && c == channel) by {
            lemma_filter_holds(
                self.members,
                other_than(group, channel),
                MemberView { group: g, channel: c },
            );
        }
    }

    /// Removing a channel keeps the table free of duplicates and takes away
    /// the memberships of that channel and no others.
    pub proof fn lemma_remove_channel(self, channel: ChannelHandle)
        ensures
            self.wf() ==> self.remove_channel(channel).wf(),
            forall|g: Seq<char>, c: ChannelHandle|
                self.remove_channel(channel).is_member(g, c) <==> self.is_member(g, c) && c
                    != channel,
    {
        if self.wf() {
            lemma_filter_no_duplicates(self.members, not_of_channel(channel));
        }
        assert forall|g: Seq<char>, c: ChannelHandle|
            self.remove_channel(channel).is_member(g, c) <==> self.is_member(g, c) && c
                != channel by {
            lemma_filter_holds(
                self.members,
                not_of_channel(channel),
                MemberView { group: g, channel: c },
            );
        }
    }

    /// The targets of a group are exactly the channels joined to it, each
    /// once.
    pub proof fn lemma_targets(self, group: Seq<char>)
        ensures
            forall|c: ChannelHandle|
                self.targets(group).contains(c) <==> self.is_member(group, c),
            self.wf() ==> self.targets(group).no_duplicates(),
    {
        let picked = self.members.filter(in_group(group));
        let out = self.targets(group);
        assert forall|c: ChannelHandle| out.contains(c) <==> self.is_member(group, c) by {
            let x = MemberView { group, channel: c };
            lemma_filter_holds(self.members, in_group(group), x);
            if out.contains(c) {
                let i = choose|i: int| 0 <= i < out.len() && out[i] == c;
                lemma_filter_holds(self.members, in_group(group), picked[i]);
                assert(picked.contains(picked[i]));
                assert(picked[i] == x);
            }
            if picked.contains(x) {
                let i = choose|i: int| 0 <= i < picked.len() && picked[i] == x;
                assert(out[i] == c);
            }
        }
        if self.wf() {
            lemma_filter_no_duplicates(self.members, in_group(group));
            assert forall|i: int, j: int|
                0 <= i < out.len() && 0 <= j < out.len() && i != j implies out[i] != out[j] by {
                lemma_filter_holds(self.members, in_group(group), picked[i]);
                lemma_filter_holds(self.members, in_group(group), picked[j]);
                assert(picked.contains(picked[i]));
                assert(picked.contains(picked[j]));
                assert(picked[i] != picked[j]);
            }
        }
    }
}

impl RouterView {
    /// A payload for a group goes to exactly the channels that are joined
    /// to it. A channel that has left the group gets nothing, and its
    /// leaving changes nothing for the others.
    pub proof fn lemma_fan_out(self, group: Seq<char>, left: ChannelHandle)
        ensures
            forall|c: ChannelHandle| self.targets(group).contains(c) <==> self.is_member(group, c),
            !self.leave(group, left).targets(group).contains(left),
            forall|c: ChannelHandle|
                c != left ==> (self.leave(group, left).targets(group).contains(c)
                    <==> self.targets(group).contains(c)),
            self.join(group, left).targets(group).contains(left),
    {
        self.lemma_targets(group);
        self.lemma_leave(group, left);
        self.leave(group, left).lemma_targets(group);
        self.lemma_join(group, left);
        self.join(group, left).lemma_targets(group);
        assert forall|c: ChannelHandle| c != left implies (self.leave(group, left).targets(
            group,
        ).contains(c) <==> self.targets(group).contains(c)) by {
            assert(self.leave(group, left).is_member(group, c) <==> self.is_member(group, c));
        }
    }
}

/// The membership table.
#[derive(Debug)]
pub struct GroupRouter {
    members: Vec<Membership>,
}

impl View for GroupRouter {
    type V = RouterView;

    closed spec fn view(&self) -> RouterView {
        RouterView { members: self.members.deep_view() }
    }
}

impl GroupRouter {
    #[verifier::type_invariant]
    spec fn inv(self) -> bool {
        self@.wf()
    }

    /// A table without memberships.
    pub fn new() -> (r: Self)
        ensures
            r@ == RouterView::empty(),
    {
        let r = GroupRouter { members: Vec::new() };
        assert(r.members.deep_view() =~= Seq::<MemberView>::empty());
        r
    }

    /// Whether `channel` is joined to `group`.
    pub fn is_member(&self, group: &str, channel: ChannelHandle) -> (b: bool)
        ensures
            b == self@.is_member(group@, channel),
            self@.wf(),
    {
        proof {
            use_type_invariant(&*self);
        }
        let ghost wanted = MemberView { group: group@, channel };
        let n: usize = self.members.len();
        let mut i: usize = 0;
        while i < n
            invariant
                i <= n,
                n == self.members.len(),
                wanted == (MemberView { group: group@, channel }),
                self@.wf(),
                forall|j: int| 0 <= j < i ==> self.members.deep_view()[j] != wanted,
            decreases n - i,
        {
            if self.members[i].channel == channel && same_text(
                self.members[i].group.as_str(),
                group,
            ) {
                assert(self.members.deep_view()[i as int] == wanted);
                return true;
            }
            i += 1;
        }
        false
    }

    /// Joins `channel` to `group`. A channel that is in the group already
    /// stays in it once.
    pub fn join(&mut self, group: &str, channel: ChannelHandle)
        ensures
            final(self)@ == old(self)@.join(group@, channel),
            final(self)@.wf(),
    {
        proof {
            use_type_invariant(&*self);
            self@.lemma_join(group@, channel);
        }
        if !self.is_member(group, channel) {
            let ghost before = self.members.deep_view();
            let mut members: Vec<Membership> = Vec::new();
            std::mem::swap(&mut members, &mut self.members);
            members.push(Membership { group: group.to_owned(), channel });
            assert(members.deep_view() =~= before.push(MemberView { group: group@, channel }));
            self.members = members;
        }
    }

    /// Takes `channel` out of `group`. Only the handle decides which
    /// channel leaves.
    pub fn leave(&mut self, group: &str, channel: ChannelHandle)
        ensures
            final(self)@ == old(self)@.leave(group@, channel),
            final(self)@.wf(),
    {
        proof {
            use_type_invariant(&*self);
            self@.lemma_leave(group@, channel);
        }
        let ghost all = self.members.deep_view();
        let ghost keep = other_than(group@, channel);
        let n: usize = self.members.len();
        let mut kept: Vec<Membership> = Vec::new();
        let mut i: usize = 0;
        assert(all.take(0).filter(keep) =~= kept.deep_view());
        while i < n
            invariant
                i <= n,
                n == self.members.len(),
                all == self.members.deep_view(),
                keep == other_than(group@, channel),
                kept.deep_view() == all.take(i as int).filter(keep),
            decreases n - i,
        {
            let m = &self.members[i];
            proof {
                reveal(Seq::filter);
                assert(all.take(i + 1).drop_last() =~= all.take(i as int));
                assert(all.take(i + 1).last() == m@);
            }
            if !(m.channel == channel && same_text(m.group.as_str(), group)) {
                let ghost before = kept.deep_view();
                kept.push(Membership { group: m.group.clone(), channel: m.channel });
                assert(kept.deep_view() =~= before.push(m@));
            }
            i += 1;
        }
        assert(all.take(n as int) =~= all);
        self.members = kept;
    }

    /// Takes `channel` out of every group.
    pub fn remove_channel(&mut self, channel: ChannelHandle)
        ensures
            final(self)@ == old(self)@.remove_channel(channel),
            final(self)@.wf(),
    {
        proof {
            use_type_invariant(&*self);
            self@.lemma_remove_channel(channel);
        }
        let ghost all = self.members.deep_view();
        let ghost keep = not_of_channel(channel);
        let n: usize = self.members.len();
        let mut kept: Vec<Membership> = Vec::new();
        let mut i: usize = 0;
        assert(all.take(0).filter(keep) =~= kept.deep_view());
        while i < n
            invariant
                i <= n,
                n == self.members.len(),
                all == self.members.deep_view(),
                keep == not_of_channel(channel),
                kept.deep_view() == all.take(i as int).filter(keep),
            decreases n - i,
        {
            let m = &self.members[i];
            proof {
                reveal(Seq::filter);
                assert(all.take(i + 1).drop_last() =~= all.take(i as int));
                assert(all.take(i + 1).last() == m@);
            }
            if m.channel != channel {
                let ghost before = kept.deep_view();
                kept.push(Membership { group: m.group.clone(), channel: m.channel });
                assert(kept.deep_view() =~= before.push(m@));
            }
            i += 1;
        }
        assert(all.take(n as int) =~= all);
        self.members = kept;
    }

    /// The channels that a payload sent to `group` goes to: those joined
    /// to the group, each once, in the order in which they joined.
    pub fn targets(&self, group: &str) -> (out: Vec<ChannelHandle>)
        ensures
            out@ == self@.targets(group@),
            out@.no_duplicates(),
            forall|c: ChannelHandle| out@.contains(c) <==> self@.is_member(group@, c),
    {
        proof {
            use_type_invariant(&*self);
            self@.lemma_targets(group@);
        }
        let ghost all = self.members.deep_view();
        let ghost pick = in_group(group@);
        let n: usize = self.members.len();
        let mut out: Vec<ChannelHandle> = Vec::new();
        let mut i: usize = 0;
        assert(all.take(0).filter(pick).map_values(channel_of()) =~= out@);
        while i < n
            invariant
                i <= n,
                n == self.members.len(),
                all == self.members.deep_view(),
                pick == in_group(group@),
                out@ == all.take(i as int).filter(pick).map_values(channel_of()),
            decreases n - i,
        {
            let m = &self.members[i];
            proof {
                reveal(Seq::filter);
                assert(all.take(i + 1).drop_last() =~= all.take(i as int));
                assert(all.take(i + 1).last() == m@);
            }
            if same_text(m.group.as_str(), group) {
                let ghost before = all.take(i as int).filter(pick);
                out.push(m.channel);
                assert(before.push(m@).map_values(channel_of()) =~= before.map_values(
                    channel_of(),
                ).push(m.channel));
            }
            i += 1;
        }
        assert(all.take(n as int) =~= all);
        out
    }
}

} // verus!
