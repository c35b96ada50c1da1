//! The set of peers that an endpoint knows to be in its room.

use vstd::prelude::*;
use crate::text::{find_text, names, noted};

verus! {

/// `members` without `who`, the others in their order.
pub open spec fn without(members: Seq<Seq<char>>, who: Seq<char>) -> Seq<Seq<char>> {
    members.filter(|m: Seq<char>| m != who)
}

/// The names of a membership snapshot, each once, in the order in which they
/// first occur.
pub open spec fn distinct(snapshot: Seq<Seq<char>>) -> Seq<Seq<char>>
    decreases snapshot.len(),
{
    if snapshot.len() == 0 {
        Seq::empty()
    } else {
        noted(distinct(snapshot.drop_last()), snapshot.last())
    }
}

/// Noting a name keeps a list free of repetitions.
pub proof fn lemma_noted_distinct(known: Seq<Seq<char>>, who: Seq<char>)
    requires
        known.no_duplicates(),
    ensures
        noted(known, who).no_duplicates(),
        noted(known, who).contains(who),
        forall|m: Seq<char>| noted(known, who).contains(m) <==> known.contains(m) || m == who,
{
    let after = noted(known, who);
    if known.contains(who) {
    } else {
        assert(after[known.len() as int] == who);
    }
    assert forall|m: Seq<char>| after.contains(m) <==> known.contains(m) || m == who by {
        if known.contains(m) {
            let i = choose|i: int| 0 <= i < known.len() && known[i] == m;
            assert(after[i] == m);
        }
        if after.contains(m) {
            let i = choose|i: int| 0 <= i < after.len() && after[i] == m;
            if i < known.len() {
                assert(known[i] == m);
            }
        }
    }
}

/// Removing a name leaves exactly the other names, and no repetitions.
pub proof fn lemma_without_distinct(members: Seq<Seq<char>>, who: Seq<char>)
    requires
        members.no_duplicates(),
    ensures
        without(members, who).no_duplicates(),
        !without(members, who).contains(who),
        forall|m: Seq<char>| without(members, who).contains(m) <==> members.contains(m) && m != who,
    decreases members.len(),
{
    reveal(Seq::filter);
    let keep = |m: Seq<char>| m != who;
    if members.len() > 0 {
        let front = members.drop_last();
        let last = members.last();
        lemma_without_distinct(front, who);
        let rest = without(front, who);
        assert(!front.contains(last)) by {
            if front.contains(last) {
                let i = choose|i: int| 0 <= i < front.len() && front[i] == last;
                assert(members[i] == members[members.len() - 1]);
            }
        }
        assert forall|m: Seq<char>| without(members, who).contains(m) <==> members.contains(m)
            && m != who by {
            if members.contains(m) {
                let i = choose|i: int| 0 <= i < members.len() && members[i] == m;
                if i < front.len() {
                    assert(front[i] == m);
                }
            }
            if front.contains(m) {
                let i = choose|i: int| 0 <= i < front.len() && front[i] == m;
                assert(members[i] == m);
            }
            if rest.contains(m) && last != who {
                let i = choose|i: int| 0 <= i < rest.len() && rest[i] == m;
                assert(rest.push(last)[i] == m);
            }
            if m == last && last != who {
                assert(rest.push(last)[rest.len() as int] == m);
                assert(members[members.len() - 1] == m);
            }
            if without(members, who).contains(m) && last != who {
                let i = choose|i: int|
                    0 <= i < without(members, who).len() && without(members, who)[i] == m;
                if i < rest.len() {
                    assert(rest[i] == m);
                }
            }
        }
    }
}

/// The peers of a room as one endpoint knows them: a list of names in which
/// none occurs twice, in the order in which they joined.
#[derive(Debug)]
pub struct PeerSet {
    members: Vec<String>,
}

impl View for PeerSet {
    type V = Seq<Seq<char>>;

    closed spec fn view(&self) -> Seq<Seq<char>> {
        names(self.members@)
    }
}

impl PeerSet {
    /// No name occurs twice.
    pub closed spec fn wf(&self) -> bool {
        names(self.members@).no_duplicates()
    }

    /// What `wf` means for the view.
    pub proof fn lemma_wf(&self)
        ensures
            self.wf() == self@.no_duplicates(),
    {
    }

    /// No peers.
    pub fn new() -> (peers: PeerSet)
        ensures
            peers.wf(),
            peers@ == Seq::<Seq<char>>::empty(),
    {
        let peers = PeerSet { members: Vec::new() };
        assert(peers@ =~= Seq::<Seq<char>>::empty());
        peers
    }

    /// Number of peers.
    pub fn len(&self) -> (n: usize)
        ensures
            n == self@.len(),
    {
        self.members.len()
    }

    /// Whether `who` is a peer.
    pub fn contains(&self, who: &String) -> (present: bool)
        ensures
            present == self@.contains(who@),
    {
        find_text(&self.members, who).is_some()
    }

    /// The peers in the order in which they joined.
    pub fn members(&self) -> (list: &Vec<String>)
        ensures
            names(list@) == self@,
    {
        &self.members
    }

    /// Adds `who` unless it is already a peer. Says whether the set changed.
    pub fn join(&mut self, who: &String) -> (changed: bool)
        requires
            old(self).wf(),
        ensures
            final(self).wf(),
            final(self)@ == noted(old(self)@, who@),
            changed == !old(self)@.contains(who@),
            !changed ==> final(self)@ == old(self)@,
    {
        proof {
            lemma_noted_distinct(self@, who@);
        }
        match find_text(&self.members, who) {
            Some(_) => false,
            None => {
                self.members.push(who.clone());
                assert(self@ =~= noted(old(self)@, who@));
                true
            },
        }
    }

    /// Removes `who` if it is a peer. Says whether the set changed.
    pub fn leave(&mut self, who: &String) -> (changed: bool)
        requires
            old(self).wf(),
        ensures
            final(self).wf(),
            final(self)@ == without(old(self)@, who@),
            changed == old(self)@.contains(who@),
            !changed ==> final(self)@ == old(self)@,
    {
        let ghost before = self@;
        let mut kept: Vec<String> = Vec::new();
        let mut changed = false;
        let mut i: usize = 0;
        proof {
            reveal(Seq::filter);
            assert(names(kept@) =~= without(before.take(0), who@));
        }
        while i < self.members.len()
            invariant
                i <= self.members.len(),
                before == names(self.members@),
                names(kept@) == without(before.take(i as int), who@),
                changed == before.take(i as int).contains(who@),
            decreases self.members.len() - i,
        {
            let ghost seen = before.take(i as int);
            proof {
                assert(before.take(i + 1) =~= seen.push(before[i as int]));
                seen.lemma_filter_push(before[i as int], |m: Seq<char>| m != who@);
                vstd::seq_lib::lemma_seq_contains_after_push(seen, before[i as int], who@);
            }
            if self.members[i] == *who {
                changed = true;
            } else {
                kept.push(self.members[i].clone());
                assert(names(kept@) =~= without(seen, who@).push(before[i as int]));
            }
            i = i + 1;
        }
        proof {
            assert(before.take(self.members.len() as int) =~= before);
            lemma_without_distinct(before, who@);
            lemma_membership_noop(before, who@);
        }
        self.members = kept;
        changed
    }

    /// The peers of a membership snapshot: its names, each once.
    pub fn from_snapshot(snapshot: &Vec<String>) -> (peers: PeerSet)
        ensures
            peers.wf(),
            peers@ == distinct(names(snapshot@)),
    {
        let ghost all = names(snapshot@);
        let mut peers = PeerSet::new();
        let mut i: usize = 0;
        while i < snapshot.len()
            invariant
                i <= snapshot.len(),
                all == names(snapshot@),
                peers.wf(),
                peers@ == distinct(all.take(i as int)),
            decreases snapshot.len() - i,
        {
            proof {
                assert(all.take(i + 1).drop_last() =~= all.take(i as int));
            }
            peers.join(&snapshot[i]);
            i = i + 1;
        }
        proof {
            assert(all.take(snapshot.len() as int) =~= all);
        }
        peers
    }
}

/// Joining a peer that is present, or removing one that is absent, leaves the
/// peers as they are.
pub proof fn lemma_membership_noop(members: Seq<Seq<char>>, who: Seq<char>)
    ensures
        members.contains(who) ==> noted(members, who) == members,
        !members.contains(who) ==> without(members, who) == members,
    decreases members.len(),
{
    reveal(Seq::filter);
    if members.len() > 0 && !members.contains(who) {
        let front = members.drop_last();
        assert(members[members.len() - 1] != who);
        assert(!front.contains(who)) by {
            if front.contains(who) {
                let i = choose|i: int| 0 <= i < front.len() && front[i] == who;
                assert(members[i] == who);
            }
        }
        lemma_membership_noop(front, who);
        assert(front.push(members.last()) =~= members);
    }
}

/// Joining twice is joining once, and leaving twice is leaving once.
pub proof fn lemma_membership_idempotent(members: Seq<Seq<char>>, who: Seq<char>)
    requires
        members.no_duplicates(),
    ensures
        noted(noted(members, who), who) == noted(members, who),
        without(without(members, who), who) == without(members, who),
{
    lemma_noted_distinct(members, who);
    lemma_without_distinct(members, who);
    lemma_membership_noop(without(members, who), who);
}

/// The order of two membership changes does not matter for who is a peer
/// afterwards.
pub proof fn lemma_membership_commutes(members: Seq<Seq<char>>, a: Seq<char>, b: Seq<char>)
    requires
        members.no_duplicates(),
    ensures
        noted(noted(members, a), b).to_set() == noted(noted(members, b), a).to_set(),
        without(without(members, a), b).to_set() == without(without(members, b), a).to_set(),
        a != b ==> without(noted(members, a), b).to_set() == noted(without(members, b), a).to_set(),
{
    lemma_noted_distinct(members, a);
    lemma_noted_distinct(members, b);
    lemma_noted_distinct(noted(members, a), b);
    lemma_noted_distinct(noted(members, b), a);
    lemma_without_distinct(members, a);
    lemma_without_distinct(members, b);
    lemma_without_distinct(without(members, a), b);
    lemma_without_distinct(without(members, b), a);
    lemma_without_distinct(noted(members, a), b);
    lemma_noted_distinct(without(members, b), a);
    let na = noted(members, a);
    let nb = noted(members, b);
    let wa = without(members, a);
    let wb = without(members, b);
    assert forall|m: Seq<char>| noted(na, b).to_set().contains(m) <==> noted(nb, a).to_set().contains(
        m,
    ) by {
        assert(noted(na, b).contains(m) <==> na.contains(m) || m == b);
        assert(na.contains(m) <==> members.contains(m) || m == a);
        assert(noted(nb, a).contains(m) <==> nb.contains(m) || m == a);
        assert(nb.contains(m) <==> members.contains(m) || m == b);
    }
    assert(noted(na, b).to_set() =~= noted(nb, a).to_set());
    assert forall|m: Seq<char>| without(wa, b).to_set().contains(m) <==> without(wb, a).to_set().contains(
        m,
    ) by {
        assert(without(wa, b).contains(m) <==> wa.contains(m) && m != b);
        assert(wa.contains(m) <==> members.contains(m) && m != a);
        assert(without(wb, a).contains(m) <==> wb.contains(m) && m != a);
        assert(wb.contains(m) <==> members.contains(m) && m != b);
    }
    assert(without(wa, b).to_set() =~= without(wb, a).to_set());
    if a != b {
        assert forall|m: Seq<char>| without(na, b).to_set().contains(m) <==> noted(wb, a).to_set().contains(
            m,
        ) by {
            assert(without(na, b).contains(m) <==> na.contains(m) && m != b);
            assert(na.contains(m) <==> members.contains(m) || m == a);
            assert(noted(wb, a).contains(m) <==> wb.contains(m) || m == a);
            assert(wb.contains(m) <==> members.contains(m) && m != b);
        }
        assert(without(na, b).to_set() =~= noted(wb, a).to_set());
    }
}

} // verus!
