//! What a whole walk amounts to: which directories it enters, and which messages
//! it passes on, when every question it asks is answered from one fixed tree.

use vstd::prelude::*;

use crate::config::Policy;
use crate::walk::{
    child, complaint, descend, identity, lemma_identity, no_counts, observation, step, ActionView,
    Counters, EntryKind, EventView, FailureView, Meta, MsgView, PendingView, Phase, WalkState,
};

verus! {

/// A tree, as the answers it gives. Paths are relative to the base.
pub struct World {
    /// The entries of a directory, each a name or a failure to read one; or why
    /// the directory cannot be listed.
    pub list: spec_fn(Seq<u8>) -> Result<Seq<Result<Seq<u8>, FailureView>>, FailureView>,
    /// What an entry is, links unfollowed.
    pub stat: spec_fn(Seq<u8>) -> Result<Meta, FailureView>,
    /// What a link points at.
    pub target: spec_fn(Seq<u8>) -> Result<Meta, FailureView>,
}

/// A walk in progress over a tree.
pub struct Tour {
    pub state: WalkState,
    /// What the walk asks for next.
    pub action: ActionView,
    /// How many entries of the open directory have been read.
    pub read: nat,
    /// The messages passed on so far.
    pub sent: Seq<MsgView>,
    /// The directories asked for so far.
    pub opened: Seq<Seq<u8>>,
}

pub open spec fn hidden(policy: Policy, name: Seq<u8>) -> bool {
    policy.skip_hidden && name.len() > 0 && name[0] == 0x2e
}

/// On a filesystem that the policy leaves out.
pub open spec fn elsewhere(s: WalkState, m: Meta) -> bool {
    s.policy.skip_mount_boundaries && m.dev != s.base_dev
}

impl World {
    /// What the walk takes an entry for.
    pub open spec fn examined(self, policy: Policy, p: Seq<u8>) -> Result<Meta, FailureView> {
        match (self.stat)(p) {
            Ok(m) => if m.kind == EntryKind::Symlink && policy.follow_symlinks {
                (self.target)(p)
            } else {
                Ok(m)
            },
            Err(f) => Err(f),
        }
    }

    /// `d` can be listed, and `p` is one of its entries that is not hidden.
    pub open spec fn shows(self, policy: Policy, d: Seq<u8>, p: Seq<u8>) -> bool {
        exists|i: int| #[trigger] self.shows_at(policy, d, p, i)
    }

    pub open spec fn shows_at(self, policy: Policy, d: Seq<u8>, p: Seq<u8>, i: int) -> bool {
        (self.list)(d) matches Ok(entries) && 0 <= i < entries.len() && (entries[i] matches Ok(
            name,
        ) && !hidden(policy, name) && p == child(d, name))
    }

    /// Reading the entries of `d` failed at some point, in this way.
    pub open spec fn breaks_off(self, d: Seq<u8>, f: FailureView) -> bool {
        (self.list)(d) matches Ok(entries) && exists|i: int|
            0 <= i < entries.len() && #[trigger] entries[i] == Err::<Seq<u8>, FailureView>(f)
    }
}

/// The answer to what the walk asks for.
pub open spec fn answered(w: World, t: Tour) -> EventView {
    match t.action {
        ActionView::Open(p) => match (w.list)(p) {
            Ok(_) => EventView::Opened,
            Err(f) => EventView::Failed(f),
        },
        ActionView::Next => match (w.list)(t.state.dir) {
            Ok(entries) => if t.read < entries.len() {
                match entries[t.read as int] {
                    Ok(name) => EventView::Name(name),
                    Err(f) => EventView::Failed(f),
                }
            } else {
                EventView::End
            },
            Err(f) => EventView::Failed(f),
        },
        ActionView::Stat(p) => match (w.stat)(p) {
            Ok(m) => EventView::Meta(m),
            Err(f) => EventView::Failed(f),
        },
        ActionView::Follow(p) => match (w.target)(p) {
            Ok(m) => EventView::Meta(m),
            Err(f) => EventView::Failed(f),
        },
        ActionView::Send(_) => EventView::Sent(true),
        ActionView::Finish => EventView::End,
    }
}

/// One question answered. A walk that has finished stays as it is.
pub open spec fn advance(w: World, t: Tour) -> Tour {
    if t.action is Finish {
        t
    } else {
        let next = step(t.state, answered(w, t), false);
        Tour {
            state: next.0,
            action: next.1,
            read: match t.action {
                ActionView::Open(_) => 0,
                ActionView::Next => t.read + 1,
                _ => t.read,
            },
            sent: match t.action {
                ActionView::Send(m) => t.sent.push(m),
                _ => t.sent,
            },
            opened: match t.action {
                ActionView::Open(p) => t.opened.push(p),
                _ => t.opened,
            },
        }
    }
}

/// A walk that has asked for nothing yet.
pub open spec fn unstarted(s: WalkState) -> bool {
    s.phase == Phase::Idle && s.stack.len() == 0 && s.level.len() == 0 && !s.gone
        && s.visited == Set::<u128>::empty()
}

/// A walk from its start, after `n` answers.
pub open spec fn tour(w: World, start: WalkState, n: nat) -> Tour
    decreases n,
{
    if n == 0 {
        let first = step(start, EventView::Start, false);
        Tour {
            state: first.0,
            action: first.1,
            read: 0,
            sent: Seq::empty(),
            opened: Seq::empty(),
        }
    } else {
        advance(w, tour(w, start, (n - 1) as nat))
    }
}

/// A message that was passed on, or is just being.
pub open spec fn told(t: Tour, m: MsgView) -> bool {
    t.sent.contains(m) || t.action == ActionView::Send(m)
}

/// A directory that was asked for, or is just being.
pub open spec fn asked_for(t: Tour, p: Seq<u8>) -> bool {
    t.opened.contains(p) || t.action == ActionView::Open(p)
}

/// A directory is not lost: it is left out by policy, entered, entered under
/// another name, or still to come.
pub open spec fn accounted(t: Tour, p: Seq<u8>, m: Meta) -> bool {
    let x = PendingView { rel: p, dev: m.dev, ino: m.ino };
    ||| elsewhere(t.state, m)
    ||| asked_for(t, p)
    ||| t.state.stack.contains(x)
    ||| t.state.level.contains(x)
    ||| t.state.policy.follow_symlinks && t.state.visited.contains(identity(m.dev, m.ino))
}

/// The entry at `p` has had its due.
pub open spec fn attended(w: World, t: Tour, p: Seq<u8>) -> bool {
    match w.examined(t.state.policy, p) {
        Err(f) => told(t, complaint(p, f)),
        Ok(m) => match m.kind {
            EntryKind::File => elsewhere(t.state, m) || told(
                t,
                MsgView::Item(observation(t.state.base, p, m)),
            ),
            EntryKind::Dir => accounted(t, p, m),
            _ => true,
        },
    }
}

/// The first `n` entries of `d` have had their due.
pub open spec fn covered(w: World, t: Tour, d: Seq<u8>, n: int) -> bool {
    match (w.list)(d) {
        Err(f) => told(t, complaint(d, f)),
        Ok(entries) => forall|i: int|
            0 <= i < n && i < entries.len() ==> match #[trigger] entries[i] {
                Err(f) => told(t, complaint(d, f)),
                Ok(name) => hidden(t.state.policy, name) || attended(w, t, child(d, name)),
            },
    }
}

/// Some directory that was entered shows `p`.
pub open spec fn offered(w: World, policy: Policy, opened: Seq<Seq<u8>>, p: Seq<u8>) -> bool {
    exists|k: int| 0 <= k < opened.len() && #[trigger] w.shows(policy, opened[k], p)
}

/// There is a reason for a message.
pub open spec fn warranted(w: World, s: WalkState, opened: Seq<Seq<u8>>, msg: MsgView) -> bool {
    match msg {
        MsgView::Item(o) => {
            &&& offered(w, s.policy, opened, o.rel)
            &&& w.examined(s.policy, o.rel) matches Ok(m) && m.kind == EntryKind::File
                && !elsewhere(s, m) && o == observation(s.base, o.rel, m)
        },
        MsgView::Error { rel, code, message } => rel matches Some(p) && exists|f: FailureView|
            msg == #[trigger] complaint(p, f) && {
                ||| offered(w, s.policy, opened, p) && w.examined(s.policy, p)
                    == Err::<Meta, FailureView>(f)
                ||| opened.contains(p) && ((w.list)(p) == Err::<
                    Seq<Result<Seq<u8>, FailureView>>,
                    FailureView,
                >(f) || w.breaks_off(p, f))
            },
    }
}

/// A directory that waits to be entered, and is one.
pub open spec fn awaited(w: World, s: WalkState, opened: Seq<Seq<u8>>, x: PendingView) -> bool {
    &&& offered(w, s.policy, opened, x.rel)
    &&& w.examined(s.policy, x.rel) matches Ok(m) && m.kind == EntryKind::Dir && m.dev == x.dev
        && m.ino == x.ino
}

/// A directory that may be entered: the base, or one on show that the policy does
/// not leave out.
pub open spec fn admitted(w: World, s: WalkState, opened: Seq<Seq<u8>>, p: Seq<u8>) -> bool {
    p.len() == 0 || (offered(w, s.policy, opened, p) && (w.examined(s.policy, p) matches Ok(m)
        && m.kind == EntryKind::Dir && !elsewhere(s, m)))
}

/// A directory with this identity was asked for.
pub open spec fn known(w: World, t: Tour, id: u128) -> bool {
    exists|p: Seq<u8>| #[trigger]
        asked_for(t, p) && (w.examined(t.state.policy, p) matches Ok(m) && identity(m.dev, m.ino)
            == id)
}

/// A directory is being listed.
pub open spec fn listing(s: WalkState) -> bool {
    s.phase == Phase::Listing || s.phase == Phase::Stating || s.phase == Phase::Following
        || s.phase == Phase::Reporting
}

/// How many entries of the open directory have had their due.
pub open spec fn done_with(t: Tour) -> int {
    if t.state.phase == Phase::Stating || t.state.phase == Phase::Following {
        t.read - 1
    } else {
        t.read as int
    }
}

/// The question asked is the one the state waits for an answer to.
pub open spec fn in_step(w: World, t: Tour) -> bool {
    let s = t.state;
    match t.action {
        ActionView::Open(p) => s.phase == Phase::Opening && s.dir == p,
        ActionView::Next => s.phase == Phase::Listing,
        ActionView::Stat(p) => s.phase == Phase::Stating && s.entry == p,
        ActionView::Follow(p) => s.phase == Phase::Following && s.entry == p && ((w.stat)(
            p,
        ) matches Ok(m) && m.kind == EntryKind::Symlink && s.policy.follow_symlinks),
        ActionView::Send(_) => s.phase == Phase::Reporting || s.phase == Phase::Leaving,
        ActionView::Finish => s.phase == Phase::Done && s.stack.len() == 0 && s.level.len() == 0,
    }
}

/// Where the open directory stands.
pub open spec fn at_work(w: World, t: Tour) -> bool {
    let s = t.state;
    listing(s) ==> {
        &&& t.opened.len() > 0
        &&& t.opened.last() == s.dir
        &&& (w.list)(s.dir) is Ok
        &&& t.read <= (w.list)(s.dir)->Ok_0.len()
        &&& (s.phase == Phase::Stating || s.phase == Phase::Following) ==> t.read > 0
            && w.shows_at(s.policy, s.dir, s.entry, t.read - 1)
    }
}

/// What holds throughout a walk that began as `start`.
pub open spec fn sound(w: World, start: WalkState, t: Tour) -> bool {
    let s = t.state;
    &&& s.policy == start.policy
    &&& s.base == start.base
    &&& s.base_dev == start.base_dev
    &&& !s.gone
    &&& in_step(w, t)
    &&& at_work(w, t)
    &&& !listing(s) ==> s.level.len() == 0
    &&& asked_for(t, Seq::<u8>::empty())
    &&& forall|k: int|
        0 <= k < t.opened.len() ==> covered(
            w,
            t,
            #[trigger] t.opened[k],
            if k == t.opened.len() - 1 && listing(s) {
                done_with(t)
            } else {
                entry_count(w, t.opened[k])
            },
        )
    &&& forall|x: PendingView| #[trigger]
        s.stack.contains(x) ==> awaited(w, s, t.opened, x)
    &&& forall|x: PendingView| #[trigger]
        s.level.contains(x) ==> awaited(w, s, t.opened, x)
    &&& forall|p: Seq<u8>| #[trigger] asked_for(t, p) ==> admitted(w, s, t.opened, p)
    &&& forall|m: MsgView| #[trigger] told(t, m) ==> warranted(w, s, t.opened, m)
    &&& forall|id: u128| #[trigger] s.visited.contains(id) ==> known(w, t, id)
}

pub open spec fn entry_count(w: World, d: Seq<u8>) -> int {
    match (w.list)(d) {
        Ok(entries) => entries.len() as int,
        Err(_) => 0,
    }
}

/// Leaving a directory loses none that waits, and enters only one that waited.
proof fn lemma_descend(s: WalkState)
    ensures
        ({
            let n = descend(s);
            &&& n.0.policy == s.policy
            &&& n.0.base == s.base
            &&& n.0.base_dev == s.base_dev
            &&& n.0.gone == s.gone
            &&& n.0.level == s.level
            &&& forall|x: PendingView| #[trigger] n.0.stack.contains(x) ==> s.stack.contains(x)
            &&& forall|x: PendingView| #[trigger]
                s.stack.contains(x) ==> {
                    ||| s.policy.skip_mount_boundaries && x.dev != s.base_dev
                    ||| n.1 == ActionView::Open(x.rel)
                    ||| n.0.stack.contains(x)
                    ||| s.policy.follow_symlinks && n.0.visited.contains(identity(x.dev, x.ino))
                }
            &&& forall|id: u128| #[trigger] s.visited.contains(id) ==> n.0.visited.contains(id)
            &&& forall|id: u128| #[trigger]
                n.0.visited.contains(id) ==> s.visited.contains(id) || exists|x: PendingView|
                    #[trigger] s.stack.contains(x) && n.1 == ActionView::Open(x.rel)
                        && identity(x.dev, x.ino) == id
            &&& match n.1 {
                ActionView::Open(p) => {
                    &&& n.0.phase == Phase::Opening
                    &&& n.0.dir == p
                    &&& exists|x: PendingView| #[trigger]
                        s.stack.contains(x) && x.rel == p && !(s.policy.skip_mount_boundaries
                            && x.dev != s.base_dev)
                },
                ActionView::Finish => n.0.phase == Phase::Done && n.0.stack.len() == 0,
                _ => false,
            }
        }),
    decreases s.stack.len(),
{
    if s.stack.len() > 0 {
        let top = s.stack.last();
        let less = s.stack.drop_last();
        assert(s.stack.contains(top));
        assert forall|x: PendingView| #[trigger] s.stack.contains(x) implies x == top
            || less.contains(x) by {
            let k = s.stack.index_of(x);
            if k < less.len() {
                assert(less[k] == x);
            }
        }
        assert forall|x: PendingView| #[trigger] less.contains(x) implies s.stack.contains(x) by {
            let k = less.index_of(x);
            assert(s.stack[k] == x);
        }
        let rest = WalkState { stack: less, ..s };
        if s.policy.skip_mount_boundaries && top.dev != s.base_dev {
            lemma_descend(
                WalkState {
                    counts: Counters {
                        mount: s.counts.mount.wrapping_add(1),
                        ..s.counts
                    },
                    ..rest
                },
            );
        } else if s.policy.follow_symlinks && s.visited.contains(identity(top.dev, top.ino)) {
            lemma_descend(rest);
        }
    }
}

proof fn lemma_joined(a: Seq<PendingView>, b: Seq<PendingView>, x: PendingView)
    ensures
        (a + b.reverse()).contains(x) <==> a.contains(x) || b.contains(x),
{
    let all = a + b.reverse();
    if a.contains(x) {
        let k = a.index_of(x);
        assert(all[k] == x);
    }
    if b.contains(x) {
        let k = b.index_of(x);
        assert(all[a.len() + (b.len() - 1 - k)] == x);
    }
    if all.contains(x) {
        let k = all.index_of(x);
        if k < a.len() {
            assert(a[k] == x);
        } else {
            assert(b[b.len() - 1 - (k - a.len())] == x);
        }
    }
}

proof fn lemma_pushed<T>(s: Seq<T>, last: T, x: T)
    ensures
        s.push(last).contains(x) <==> s.contains(x) || x == last,
{
    if s.contains(x) {
        let k = s.index_of(x);
        assert(s.push(last)[k] == x);
    }
    assert(s.push(last)[s.len() as int] == last);
    if s.push(last).contains(x) && x != last {
        let k = s.push(last).index_of(x);
        assert(s[k] == x);
    }
}

/// The stack from which the walk goes on, where it leaves a directory.
spec fn leaves(w: World, t: Tour) -> bool {
    t.state.phase == Phase::Leaving || (t.state.phase == Phase::Listing && answered(w, t) is End)
}

spec fn waiting(t: Tour) -> Seq<PendingView> {
    if t.state.phase == Phase::Listing {
        t.state.stack + t.state.level.reverse()
    } else {
        t.state.stack
    }
}

/// What leaving a directory does to a walk.
proof fn lemma_leaving(w: World, start: WalkState, t: Tour)
    requires
        sound(w, start, t),
        !(t.action is Finish),
        leaves(w, t),
    ensures
        ({
            let n = advance(w, t);
            let from = WalkState { stack: waiting(t), level: Seq::empty(), ..t.state };
            (n.state, n.action) == descend(from)
        }),
        forall|x: PendingView| #[trigger]
            waiting(t).contains(x) <==> t.state.stack.contains(x) || t.state.level.contains(x),
{
    let s = t.state;
    assert forall|x: PendingView| #[trigger] waiting(t).contains(x) <==> s.stack.contains(x)
        || s.level.contains(x) by {
        lemma_joined(s.stack, s.level, x);
    }
    if s.phase == Phase::Leaving {
        assert(s.level =~= Seq::empty());
    }
}

/// What has been told, asked for or accounted for stays so.
proof fn lemma_lasting(w: World, start: WalkState, t: Tour)
    requires
        sound(w, start, t),
        !(t.action is Finish),
    ensures
        forall|m: MsgView| #[trigger] told(t, m) ==> told(advance(w, t), m),
        forall|p: Seq<u8>| #[trigger] asked_for(t, p) ==> asked_for(advance(w, t), p),
        forall|p: Seq<u8>, m: Meta| #[trigger]
            accounted(t, p, m) ==> accounted(advance(w, t), p, m),
        advance(w, t).state.policy == start.policy,
        advance(w, t).state.base == start.base,
        advance(w, t).state.base_dev == start.base_dev,
        !advance(w, t).state.gone,
{
    let n = advance(w, t);
    let s = t.state;
    if leaves(w, t) {
        lemma_leaving(w, start, t);
        lemma_descend(WalkState { stack: waiting(t), level: Seq::empty(), ..s });
    }
    assert forall|m: MsgView| #[trigger] told(t, m) implies told(n, m) by {
        if let ActionView::Send(a) = t.action {
            lemma_pushed(t.sent, a, m);
        }
    }
    assert forall|p: Seq<u8>| #[trigger] asked_for(t, p) implies asked_for(n, p) by {
        if let ActionView::Open(a) = t.action {
            lemma_pushed(t.opened, a, p);
        }
    }
    assert forall|p: Seq<u8>, m: Meta| #[trigger] accounted(t, p, m) implies accounted(
        n,
        p,
        m,
    ) by {
        let x = PendingView { rel: p, dev: m.dev, ino: m.ino };
        if leaves(w, t) {
            if s.stack.contains(x) || s.level.contains(x) {
                assert(waiting(t).contains(x));
            }
        } else {
            assert(n.state.stack == s.stack);
            if n.state.level != s.level {
                lemma_pushed(s.level, n.state.level.last(), x);
                assert(n.state.level =~= s.level.push(n.state.level.last()));
            }
        }
    }
}

/// How far the `k`-th directory asked for has been covered.
spec fn reach(w: World, t: Tour, k: int) -> int {
    if k == t.opened.len() - 1 && listing(t.state) {
        done_with(t)
    } else {
        entry_count(w, t.opened[k])
    }
}

proof fn lemma_attended_lasts(w: World, start: WalkState, t: Tour, p: Seq<u8>)
    requires
        sound(w, start, t),
        !(t.action is Finish),
        attended(w, t, p),
    ensures
        attended(w, advance(w, t), p),
{
    lemma_lasting(w, start, t);
    let n = advance(w, t);
    match w.examined(start.policy, p) {
        Ok(m) => {
            if m.kind == EntryKind::Dir {
                assert(accounted(t, p, m));
            }
            if m.kind == EntryKind::File && !elsewhere(t.state, m) {
                assert(told(t, MsgView::Item(observation(start.base, p, m))));
            }
        },
        Err(f) => {
            assert(told(t, complaint(p, f)));
        },
    }
}

proof fn lemma_covered_lasts(w: World, start: WalkState, t: Tour, d: Seq<u8>, c: int)
    requires
        sound(w, start, t),
        !(t.action is Finish),
        covered(w, t, d, c),
    ensures
        covered(w, advance(w, t), d, c),
{
    lemma_lasting(w, start, t);
    let n = advance(w, t);
    match (w.list)(d) {
        Err(f) => {
            assert(told(t, complaint(d, f)));
        },
        Ok(entries) => {
            assert forall|i: int| 0 <= i < c && i < entries.len() implies match #[trigger] entries[i] {
                Err(f) => told(n, complaint(d, f)),
                Ok(name) => hidden(n.state.policy, name) || attended(w, n, child(d, name)),
            } by {
                match entries[i] {
                    Err(f) => {
                        assert(told(t, complaint(d, f)));
                    },
                    Ok(name) => {
                        if !hidden(start.policy, name) {
                            lemma_attended_lasts(w, start, t, child(d, name));
                        }
                    },
                }
            }
        },
    }
}

/// The entry just read, or just examined, gets its due.
proof fn lemma_entry(w: World, start: WalkState, t: Tour)
    requires
        sound(w, start, t),
        !(t.action is Finish),
        listing(t.state),
        listing(advance(w, t).state),
        done_with(advance(w, t)) > done_with(t),
    ensures
        done_with(advance(w, t)) == done_with(t) + 1,
        ({
            let n = advance(w, t);
            let entries = (w.list)(t.state.dir)->Ok_0;
            let i = done_with(t);
            &&& 0 <= i < entries.len()
            &&& match entries[i] {
                Err(f) => told(n, complaint(t.state.dir, f)),
                Ok(name) => hidden(start.policy, name) || attended(
                    w,
                    n,
                    child(t.state.dir, name),
                ),
            }
        }),
{
    let n = advance(w, t);
    let s = t.state;
    let entries = (w.list)(s.dir)->Ok_0;
    match s.phase {
        Phase::Listing => {
            assert(t.action is Next);
            if t.read < entries.len() {
                match entries[t.read as int] {
                    Ok(name) => {
                        assert(answered(w, t) == EventView::Name(name));
                    },
                    Err(f) => {
                        assert(answered(w, t) == EventView::Failed(f));
                        assert(n.action == ActionView::Send(complaint(s.dir, f)));
                    },
                }
            } else {
                assert(answered(w, t) == EventView::End);
                lemma_leaving(w, start, t);
                lemma_descend(WalkState { stack: waiting(t), level: Seq::empty(), ..s });
            }
        },
        Phase::Stating => {
            assert(t.action == ActionView::Stat(s.entry));
            match (w.stat)(s.entry) {
                Ok(m) => {
                    if m.kind == EntryKind::Dir {
                        let x = PendingView { rel: s.entry, dev: m.dev, ino: m.ino };
                        lemma_pushed(s.level, x, x);
                    }
                },
                Err(f) => {},
            }
        },
        Phase::Following => {
            assert(t.action == ActionView::Follow(s.entry));
            match (w.target)(s.entry) {
                Ok(m) => {
                    if m.kind == EntryKind::Dir {
                        let x = PendingView { rel: s.entry, dev: m.dev, ino: m.ino };
                        lemma_pushed(s.level, x, x);
                    }
                },
                Err(f) => {},
            }
        },
        _ => {},
    }
}

/// Everything asked for stays covered.
proof fn lemma_coverage(w: World, start: WalkState, t: Tour)
    requires
        sound(w, start, t),
        !(t.action is Finish),
    ensures
        ({
            let n = advance(w, t);
            forall|k: int|
                0 <= k < n.opened.len() ==> covered(
                    w,
                    n,
                    #[trigger] n.opened[k],
                    reach(w, n, k),
                )
        }),
{
    let n = advance(w, t);
    let s = t.state;
    if leaves(w, t) {
        lemma_leaving(w, start, t);
        lemma_descend(WalkState { stack: waiting(t), level: Seq::empty(), ..s });
    }
    assert forall|k: int| 0 <= k < n.opened.len() implies covered(
        w,
        n,
        #[trigger] n.opened[k],
        reach(w, n, k),
    ) by {
        let d = n.opened[k];
        if k < t.opened.len() {
            assert(t.opened[k] == d);
            assert(covered(w, t, t.opened[k], reach(w, t, k)));
            lemma_covered_lasts(w, start, t, d, reach(w, t, k));
            if reach(w, n, k) > reach(w, t, k) {
                assert(k == t.opened.len() - 1 && listing(s));
                if listing(n.state) {
                    lemma_entry(w, start, t);
                } else {
                    assert(t.action is Next);
                }
            }
        } else {
            assert(t.action == ActionView::Open(d));
        }
    }
}

proof fn lemma_offered_lasts(
    w: World,
    policy: Policy,
    opened: Seq<Seq<u8>>,
    d: Seq<u8>,
    p: Seq<u8>,
)
    requires
        offered(w, policy, opened, p),
    ensures
        offered(w, policy, opened.push(d), p),
{
    let k = choose|k: int| 0 <= k < opened.len() && #[trigger] w.shows(policy, opened[k], p);
    assert(opened.push(d)[k] == opened[k]);
    assert(w.shows(policy, opened.push(d)[k], p));
}

/// What there was reason for, there still is.
proof fn lemma_grounds_last(w: World, start: WalkState, t: Tour)
    requires
        sound(w, start, t),
        !(t.action is Finish),
    ensures
        ({
            let n = advance(w, t);
            &&& forall|m: MsgView|
                warranted(w, t.state, t.opened, m) ==> #[trigger] warranted(w, n.state, n.opened, m)
            &&& forall|x: PendingView|
                awaited(w, t.state, t.opened, x) ==> #[trigger] awaited(w, n.state, n.opened, x)
            &&& forall|p: Seq<u8>|
                admitted(w, t.state, t.opened, p) ==> #[trigger] admitted(w, n.state, n.opened, p)
            &&& forall|id: u128| known(w, t, id) ==> #[trigger] known(w, n, id)
        }),
{
    lemma_lasting(w, start, t);
    let n = advance(w, t);
    assert forall|p: Seq<u8>| offered(w, start.policy, t.opened, p) implies #[trigger] offered(
        w,
        start.policy,
        n.opened,
        p,
    ) by {
        if let ActionView::Open(d) = t.action {
            lemma_offered_lasts(w, start.policy, t.opened, d, p);
        }
    }
    assert forall|p: Seq<u8>| t.opened.contains(p) implies #[trigger] n.opened.contains(p) by {
        if let ActionView::Open(d) = t.action {
            lemma_pushed(t.opened, d, p);
        }
    }
    assert forall|m: MsgView| warranted(w, t.state, t.opened, m) implies #[trigger] warranted(
        w,
        n.state,
        n.opened,
        m,
    ) by {
        match m {
            MsgView::Item(o) => {
                assert(offered(w, start.policy, n.opened, o.rel));
            },
            MsgView::Error { rel, code, message } => {
                let p = rel->0;
                assert(offered(w, start.policy, t.opened, p) ==> offered(
                    w,
                    start.policy,
                    n.opened,
                    p,
                ));
                assert(t.opened.contains(p) ==> n.opened.contains(p));
            },
        }
    }
    assert forall|x: PendingView| awaited(w, t.state, t.opened, x) implies #[trigger] awaited(
        w,
        n.state,
        n.opened,
        x,
    ) by {
        assert(offered(w, start.policy, n.opened, x.rel));
    }
    assert forall|p: Seq<u8>| admitted(w, t.state, t.opened, p) implies #[trigger] admitted(
        w,
        n.state,
        n.opened,
        p,
    ) by {
        if p.len() > 0 {
            assert(offered(w, start.policy, n.opened, p));
        }
    }
    assert forall|id: u128| known(w, t, id) implies #[trigger] known(w, n, id) by {
        let p = choose|p: Seq<u8>| #[trigger]
            asked_for(t, p) && (w.examined(t.state.policy, p) matches Ok(m) && identity(
                m.dev,
                m.ino,
            ) == id);
        assert(asked_for(n, p));
    }
}

/// The entry being examined is on show in the open directory.
proof fn lemma_on_show(w: World, start: WalkState, t: Tour)
    requires
        sound(w, start, t),
        t.state.phase == Phase::Stating || t.state.phase == Phase::Following,
    ensures
        offered(w, start.policy, t.opened, t.state.entry),
{
    let k = t.opened.len() - 1;
    assert(w.shows_at(start.policy, t.state.dir, t.state.entry, t.read - 1));
    assert(w.shows(start.policy, t.opened[k], t.state.entry));
}

/// A message about to be passed on is warranted.
proof fn lemma_message(w: World, start: WalkState, t: Tour, msg: MsgView)
    requires
        sound(w, start, t),
        !(t.action is Finish),
        advance(w, t).action == ActionView::Send(msg),
    ensures
        warranted(w, advance(w, t).state, advance(w, t).opened, msg),
{
    lemma_lasting(w, start, t);
    let n = advance(w, t);
    let s = t.state;
    if leaves(w, t) {
        lemma_leaving(w, start, t);
        lemma_descend(WalkState { stack: waiting(t), level: Seq::empty(), ..s });
    }
    match s.phase {
        Phase::Opening => {
            assert(t.action == ActionView::Open(s.dir));
            lemma_pushed(t.opened, s.dir, s.dir);
            let f = answered(w, t)->Failed_0;
            assert(msg == complaint(s.dir, f));
        },
        Phase::Listing => {
            let f = answered(w, t)->Failed_0;
            assert(msg == complaint(s.dir, f));
            assert(t.opened.contains(s.dir)) by {
                assert(t.opened[t.opened.len() - 1] == s.dir);
            }
            assert(w.breaks_off(s.dir, f)) by {
                let entries = (w.list)(s.dir)->Ok_0;
                assert(entries[t.read as int] == Err::<Seq<u8>, FailureView>(f));
            }
        },
        Phase::Stating => {
            lemma_on_show(w, start, t);
            assert(t.action == ActionView::Stat(s.entry));
            match (w.stat)(s.entry) {
                Ok(m) => {
                    assert(msg == MsgView::Item(observation(s.base, s.entry, m)));
                },
                Err(f) => {
                    assert(msg == complaint(s.entry, f));
                },
            }
        },
        Phase::Following => {
            lemma_on_show(w, start, t);
            assert(t.action == ActionView::Follow(s.entry));
            match (w.target)(s.entry) {
                Ok(m) => {
                    assert(msg == MsgView::Item(observation(s.base, s.entry, m)));
                },
                Err(f) => {
                    assert(msg == complaint(s.entry, f));
                },
            }
        },
        _ => {},
    }
}

/// Each answer keeps everything that holds of a walk.
proof fn lemma_advance(w: World, start: WalkState, t: Tour)
    requires
        sound(w, start, t),
        !(t.action is Finish),
    ensures
        sound(w, start, advance(w, t)),
{
    let n = advance(w, t);
    let s = t.state;
    lemma_lasting(w, start, t);
    lemma_coverage(w, start, t);
    lemma_grounds_last(w, start, t);
    if leaves(w, t) {
        lemma_leaving(w, start, t);
        lemma_descend(WalkState { stack: waiting(t), level: Seq::empty(), ..s });
    }
    assert forall|x: PendingView| #[trigger] n.state.stack.contains(x) implies awaited(
        w,
        n.state,
        n.opened,
        x,
    ) by {
        if leaves(w, t) {
            assert(waiting(t).contains(x));
        } else {
            assert(n.state.stack == s.stack);
        }
        assert(awaited(w, s, t.opened, x));
    }
    assert forall|x: PendingView| #[trigger] n.state.level.contains(x) implies awaited(
        w,
        n.state,
        n.opened,
        x,
    ) by {
        if s.level.contains(x) {
            assert(awaited(w, s, t.opened, x));
        } else {
            assert(!leaves(w, t));
            assert(s.phase == Phase::Stating || s.phase == Phase::Following);
            lemma_on_show(w, start, t);
            assert(n.state.level =~= s.level.push(n.state.level.last()));
            lemma_pushed(s.level, n.state.level.last(), x);
            assert(awaited(w, s, t.opened, x));
        }
    }
    assert forall|p: Seq<u8>| #[trigger] asked_for(n, p) implies admitted(
        w,
        n.state,
        n.opened,
        p,
    ) by {
        if let ActionView::Open(d) = t.action {
            lemma_pushed(t.opened, d, p);
        }
        if asked_for(t, p) {
            assert(admitted(w, s, t.opened, p));
        } else {
            assert(n.action == ActionView::Open(p));
            assert(leaves(w, t));
            let x = choose|x: PendingView| #[trigger]
                waiting(t).contains(x) && x.rel == p && !(s.policy.skip_mount_boundaries && x.dev
                    != s.base_dev);
            assert(awaited(w, s, t.opened, x));
            assert(admitted(w, s, t.opened, p));
        }
    }
    assert forall|m: MsgView| #[trigger] told(n, m) implies warranted(
        w,
        n.state,
        n.opened,
        m,
    ) by {
        if let ActionView::Send(a) = t.action {
            lemma_pushed(t.sent, a, m);
        }
        if told(t, m) {
            assert(warranted(w, s, t.opened, m));
        } else {
            lemma_message(w, start, t, m);
        }
    }
    assert forall|id: u128| #[trigger] n.state.visited.contains(id) implies known(w, n, id) by {
        if s.visited.contains(id) {
            assert(known(w, t, id));
        } else {
            assert(leaves(w, t));
            let x = choose|x: PendingView| #[trigger]
                waiting(t).contains(x) && n.action == ActionView::Open(x.rel) && identity(
                    x.dev,
                    x.ino,
                ) == id;
            assert(awaited(w, s, t.opened, x));
            assert(asked_for(n, x.rel));
        }
    }
    assert(asked_for(n, Seq::<u8>::empty()));
    assert forall|k: int| 0 <= k < n.opened.len() implies covered(
        w,
        n,
        #[trigger] n.opened[k],
        if k == n.opened.len() - 1 && listing(n.state) {
            done_with(n)
        } else {
            entry_count(w, n.opened[k])
        },
    ) by {
        assert(covered(w, n, n.opened[k], reach(w, n, k)));
    }
}

proof fn lemma_tour(w: World, start: WalkState, n: nat)
    requires
        unstarted(start),
    ensures
        sound(w, start, tour(w, start, n)),
    decreases n,
{
    if n > 0 {
        lemma_tour(w, start, (n - 1) as nat);
        if !(tour(w, start, (n - 1) as nat).action is Finish) {
            lemma_advance(w, start, tour(w, start, (n - 1) as nat));
        }
    } else {
        let t = tour(w, start, 0);
        assert(t.action == ActionView::Open(Seq::empty()));
        assert forall|p: Seq<u8>| #[trigger] asked_for(t, p) implies p.len() == 0 by {}
    }
}

/// The directory with this identity was asked for, under some name.
pub open spec fn entered(w: World, policy: Policy, opened: Seq<Seq<u8>>, m: Meta) -> bool {
    exists|q: Seq<u8>| #[trigger]
        opened.contains(q) && (w.examined(policy, q) matches Ok(other) && other.dev == m.dev
            && other.ino == m.ino)
}

/// A walk that has finished missed nothing. The base was asked for. So was every
/// directory on show in a directory that was listed, unless the policy leaves it
/// out, or it was entered under another name. Every file on show there that the
/// policy admits was passed on, and so was every failure.
pub proof fn law_walk_misses_nothing(w: World, start: WalkState, n: nat, d: Seq<u8>)
    requires
        unstarted(start),
        tour(w, start, n).action is Finish,
        tour(w, start, n).opened.contains(d),
    ensures
        ({
            let t = tour(w, start, n);
            &&& t.opened.contains(Seq::<u8>::empty())
            &&& (w.list)(d) matches Err(f) ==> t.sent.contains(complaint(d, f))
            &&& forall|f: FailureView| #[trigger]
                w.breaks_off(d, f) ==> t.sent.contains(complaint(d, f))
            &&& forall|p: Seq<u8>| #[trigger]
                w.shows(start.policy, d, p) ==> match w.examined(start.policy, p) {
                    Err(f) => t.sent.contains(complaint(p, f)),
                    Ok(m) => match m.kind {
                        EntryKind::File => elsewhere(start, m) || t.sent.contains(
                            MsgView::Item(observation(start.base, p, m)),
                        ),
                        EntryKind::Dir => {
                            ||| elsewhere(start, m)
                            ||| t.opened.contains(p)
                            ||| start.policy.follow_symlinks && entered(w, start.policy, t.opened, m)
                        },
                        _ => true,
                    },
                }
        }),
{
    lemma_tour(w, start, n);
    let t = tour(w, start, n);
    let k = t.opened.index_of(d);
    assert(asked_for(t, Seq::<u8>::empty()));
    assert(covered(w, t, t.opened[k], entry_count(w, d)));
    assert forall|f: FailureView| #[trigger] w.breaks_off(d, f) implies t.sent.contains(
        complaint(d, f),
    ) by {
        let entries = (w.list)(d)->Ok_0;
        let i = choose|i: int|
            0 <= i < entries.len() && #[trigger] entries[i] == Err::<Seq<u8>, FailureView>(f);
        assert(told(t, complaint(d, f)));
    }
    assert forall|p: Seq<u8>| #[trigger] w.shows(start.policy, d, p) implies match w.examined(
        start.policy,
        p,
    ) {
        Err(f) => t.sent.contains(complaint(p, f)),
        Ok(m) => match m.kind {
            EntryKind::File => elsewhere(start, m) || t.sent.contains(
                MsgView::Item(observation(start.base, p, m)),
            ),
            EntryKind::Dir => {
                ||| elsewhere(start, m)
                ||| t.opened.contains(p)
                ||| start.policy.follow_symlinks && entered(w, start.policy, t.opened, m)
            },
            _ => true,
        },
    } by {
        let i = choose|i: int| #[trigger] w.shows_at(start.policy, d, p, i);
        let entries = (w.list)(d)->Ok_0;
        assert(entries[i] is Ok);
        assert(attended(w, t, p));
        if let Ok(m) = w.examined(start.policy, p) {
            if m.kind == EntryKind::Dir {
                assert(accounted(t, p, m));
                let id = identity(m.dev, m.ino);
                if start.policy.follow_symlinks && t.state.visited.contains(id) {
                    assert(known(w, t, id));
                    let q = choose|q: Seq<u8>| #[trigger]
                        asked_for(t, q) && (w.examined(start.policy, q) matches Ok(other)
                            && identity(other.dev, other.ino) == id);
                    let other = w.examined(start.policy, q)->Ok_0;
                    lemma_identity(other.dev, other.ino, m.dev, m.ino);
                    assert(t.opened.contains(q));
                }
            }
        }
    }
}

/// A walk invents nothing. Every file passed on was on show in a directory that was
/// asked for, is a regular file, and is admitted by the policy, however it was
/// reached; every problem is one that was met; and every directory asked for is the
/// base or was on show, and is admitted by the policy.
pub proof fn law_walk_invents_nothing(w: World, start: WalkState, n: nat)
    requires
        unstarted(start),
    ensures
        ({
            let t = tour(w, start, n);
            &&& forall|m: MsgView| #[trigger]
                t.sent.contains(m) ==> warranted(w, start, t.opened, m)
            &&& forall|p: Seq<u8>| #[trigger]
                t.opened.contains(p) ==> admitted(w, start, t.opened, p)
        }),
{
    lemma_tour(w, start, n);
    let t = tour(w, start, n);
    assert forall|m: MsgView| #[trigger] t.sent.contains(m) implies warranted(
        w,
        start,
        t.opened,
        m,
    ) by {
        assert(told(t, m));
    }
    assert forall|p: Seq<u8>| #[trigger] t.opened.contains(p) implies admitted(
        w,
        start,
        t.opened,
        p,
    ) by {
        assert(asked_for(t, p));
    }
}

/// Entering a directory while links are followed makes one more identity known.
proof fn lemma_descend_marks(s: WalkState)
    requires
        s.policy.follow_symlinks,
    ensures
        ({
            let n = descend(s);
            n.1 is Open ==> exists|x: PendingView| #[trigger]
                s.stack.contains(x) && n.1 == ActionView::Open(x.rel) && !s.visited.contains(
                    identity(x.dev, x.ino),
                ) && n.0.visited == s.visited.insert(identity(x.dev, x.ino))
        }),
    decreases s.stack.len(),
{
    if s.stack.len() > 0 {
        let top = s.stack.last();
        let less = s.stack.drop_last();
        assert(s.stack.contains(top));
        assert forall|x: PendingView| #[trigger] less.contains(x) implies s.stack.contains(x) by {
            let k = less.index_of(x);
            assert(s.stack[k] == x);
        }
        let rest = WalkState { stack: less, ..s };
        if s.policy.skip_mount_boundaries && top.dev != s.base_dev {
            lemma_descend_marks(
                WalkState {
                    counts: Counters { mount: s.counts.mount.wrapping_add(1), ..s.counts },
                    ..rest
                },
            );
        } else if s.visited.contains(identity(top.dev, top.ino)) {
            lemma_descend_marks(rest);
        }
    }
}

/// The identity of a directory that was asked for.
pub open spec fn identity_at(w: World, policy: Policy, p: Seq<u8>) -> u128 {
    identity(w.examined(policy, p)->Ok_0.dev, w.examined(policy, p)->Ok_0.ino)
}

/// No two of these have the same identity, the base aside.
pub open spec fn all_different(w: World, policy: Policy, opened: Seq<Seq<u8>>) -> bool {
    forall|i: int, j: int|
        0 <= i < j < opened.len() && opened[i].len() > 0 && opened[j].len() > 0 ==> identity_at(
            w,
            policy,
            #[trigger] opened[i],
        ) != identity_at(w, policy, #[trigger] opened[j])
}

/// Everything asked for is marked as entered, and what is being asked for is new.
spec fn marked(w: World, t: Tour) -> bool {
    let s = t.state;
    &&& all_different(w, s.policy, t.opened)
    &&& forall|k: int|
        0 <= k < t.opened.len() && t.opened[k].len() > 0 ==> s.visited.contains(
            identity_at(w, s.policy, #[trigger] t.opened[k]),
        )
    &&& t.action matches ActionView::Open(p) ==> p.len() > 0 ==> {
        &&& s.visited.contains(identity_at(w, s.policy, p))
        &&& forall|k: int|
            0 <= k < t.opened.len() && t.opened[k].len() > 0 ==> identity_at(
                w,
                s.policy,
                #[trigger] t.opened[k],
            ) != identity_at(w, s.policy, p)
    }
}

proof fn lemma_marked(w: World, start: WalkState, n: nat)
    requires
        unstarted(start),
        start.policy.follow_symlinks,
    ensures
        marked(w, tour(w, start, n)),
    decreases n,
{
    if n > 0 {
        let t = tour(w, start, (n - 1) as nat);
        lemma_marked(w, start, (n - 1) as nat);
        lemma_tour(w, start, (n - 1) as nat);
        if !(t.action is Finish) {
            let next = advance(w, t);
            lemma_lasting(w, start, t);
            if leaves(w, t) {
                lemma_leaving(w, start, t);
                let from = WalkState { stack: waiting(t), level: Seq::empty(), ..t.state };
                lemma_descend(from);
                lemma_descend_marks(from);
                assert(next.opened == t.opened);
                if let ActionView::Open(p) = next.action {
                    let x = choose|x: PendingView| #[trigger]
                        from.stack.contains(x) && next.action == ActionView::Open(x.rel)
                            && !from.visited.contains(identity(x.dev, x.ino))
                            && next.state.visited == from.visited.insert(identity(x.dev, x.ino));
                    assert(awaited(w, t.state, t.opened, x));
                    assert(identity_at(w, start.policy, p) == identity(x.dev, x.ino));
                }
            } else {
                assert(next.state.visited == t.state.visited);
                assert(!(next.action is Open));
            }
        }
    }
}

/// While links are followed no directory is entered twice, under whatever names it
/// is met. The base itself is not among those remembered: a link to it leads
/// through it once more.
pub proof fn law_no_directory_is_entered_twice(w: World, start: WalkState, n: nat)
    requires
        unstarted(start),
        start.policy.follow_symlinks,
    ensures
        all_different(w, start.policy, tour(w, start, n).opened),
{
    lemma_marked(w, start, n);
    lemma_tour(w, start, n);
}

/// How much is left to do in the open directory.
spec fn left(w: World, t: Tour) -> nat {
    let count = entry_count(w, t.state.dir);
    let unread = if t.read < count {
        count - t.read
    } else {
        0
    };
    match t.state.phase {
        Phase::Opening => (5 * count + 3) as nat,
        Phase::Listing => (5 * unread + 2) as nat,
        Phase::Stating => (5 * unread + 6) as nat,
        Phase::Following => (5 * unread + 5) as nat,
        Phase::Reporting => (5 * unread + 4) as nat,
        Phase::Leaving => 1,
        _ => 0,
    }
}

/// Every directory that can be met has one of these identities.
pub open spec fn within(w: World, policy: Policy, ids: Set<u128>) -> bool {
    forall|p: Seq<u8>|
        (#[trigger] w.examined(policy, p)) matches Ok(m) ==> m.kind == EntryKind::Dir
            ==> ids.contains(identity(m.dev, m.ino))
}

proof fn lemma_ends(w: World, start: WalkState, ids: Set<u128>, n: nat)
    requires
        unstarted(start),
        start.policy.follow_symlinks,
        ids.finite(),
        within(w, start.policy, ids),
    ensures
        exists|m: nat| (#[trigger] tour(w, start, m)).action is Finish,
    decreases
            ids.difference(tour(w, start, n).state.visited).len(),
            left(w, tour(w, start, n)),
{
    lemma_tour(w, start, n);
    let t = tour(w, start, n);
    if !(t.action is Finish) {
        lemma_tour(w, start, n + 1);
        let next = tour(w, start, n + 1);
        assert(next == advance(w, t));
        let before = ids.difference(t.state.visited);
        let after = ids.difference(next.state.visited);
        if leaves(w, t) {
            lemma_leaving(w, start, t);
            let from = WalkState { stack: waiting(t), level: Seq::empty(), ..t.state };
            lemma_descend(from);
            lemma_descend_marks(from);
            if next.action is Open {
                let x = choose|x: PendingView| #[trigger]
                    from.stack.contains(x) && !from.visited.contains(identity(x.dev, x.ino))
                        && next.state.visited == from.visited.insert(identity(x.dev, x.ino));
                let id = identity(x.dev, x.ino);
                assert(awaited(w, t.state, t.opened, x));
                assert(ids.contains(id));
                assert(after =~= before.remove(id));
                assert(before.contains(id));
                assert(before.finite());
                assert(after.len() < before.len());
                lemma_ends(w, start, ids, n + 1);
            }
        } else {
            assert(next.state.visited == t.state.visited);
            assert(left(w, next) < left(w, t));
            lemma_ends(w, start, ids, n + 1);
        }
    }
}

/// Following links never makes a walk go round in circles: over a tree with
/// finitely many directories it comes to an end, whatever the links point at.
pub proof fn law_links_never_loop(w: World, start: WalkState, ids: Set<u128>)
    requires
        unstarted(start),
        start.policy.follow_symlinks,
        ids.finite(),
        within(w, start.policy, ids),
    ensures
        exists|n: nat| (#[trigger] tour(w, start, n)).action is Finish,
{
    lemma_ends(w, start, ids, 0);
}

/// What an entry adds to the directories still to be entered, when each directory
/// weighs this much.
pub open spec fn cost(
    w: World,
    policy: Policy,
    weight: spec_fn(Seq<u8>) -> nat,
    d: Seq<u8>,
    entry: Result<Seq<u8>, FailureView>,
) -> nat {
    match entry {
        Err(_) => 0,
        Ok(name) => if hidden(policy, name) {
            0
        } else {
            match w.examined(policy, child(d, name)) {
                Ok(m) => if m.kind == EntryKind::Dir {
                    1 + weight(child(d, name))
                } else {
                    0
                },
                Err(_) => 0,
            }
        },
    }
}

/// The subdirectories among the first `n` entries of `d`, by weight.
pub open spec fn burden(
    w: World,
    policy: Policy,
    weight: spec_fn(Seq<u8>) -> nat,
    d: Seq<u8>,
    n: int,
) -> nat
    decreases n,
{
    match (w.list)(d) {
        Err(_) => 0,
        Ok(entries) => if n <= 0 {
            0
        } else {
            burden(w, policy, weight, d, n - 1) + cost(w, policy, weight, d, entries[n - 1])
        },
    }
}

/// The tree is finite: no directory weighs less than its subdirectories together.
pub open spec fn finite_tree(w: World, policy: Policy, weight: spec_fn(Seq<u8>) -> nat) -> bool {
    forall|d: Seq<u8>|
        burden(w, policy, weight, d, entry_count(w, d)) <= #[trigger] weight(d)
}

/// What each directory that waits is worth, added up.
spec fn worth(value: spec_fn(Seq<u8>) -> nat, waiting: Seq<PendingView>) -> nat
    decreases waiting.len(),
{
    if waiting.len() == 0 {
        0
    } else {
        worth(value, waiting.drop_last()) + value(waiting.last().rel)
    }
}

proof fn lemma_worth_sum(value: spec_fn(Seq<u8>) -> nat, a: Seq<PendingView>, b: Seq<PendingView>)
    ensures
        worth(value, a + b) == worth(value, a) + worth(value, b),
    decreases b.len(),
{
    if b.len() == 0 {
        assert(a + b =~= a);
    } else {
        assert((a + b).drop_last() =~= a + b.drop_last());
        lemma_worth_sum(value, a, b.drop_last());
    }
}

proof fn lemma_worth_reverse(value: spec_fn(Seq<u8>) -> nat, a: Seq<PendingView>)
    ensures
        worth(value, a.reverse()) == worth(value, a),
    decreases a.len(),
{
    if a.len() > 0 {
        let rest = a.drop_last();
        lemma_worth_reverse(value, rest);
        assert(a.reverse() =~= seq![a.last()] + rest.reverse());
        lemma_worth_sum(value, seq![a.last()], rest.reverse());
        reveal_with_fuel(worth, 2);
        assert(seq![a.last()].drop_last() =~= Seq::<PendingView>::empty());
    } else {
        assert(a.reverse() =~= a);
    }
}

/// Entering a directory takes its worth off what waits.
proof fn lemma_descend_takes(s: WalkState, value: spec_fn(Seq<u8>) -> nat)
    ensures
        worth(value, descend(s).0.stack) + (match descend(s).1 {
            ActionView::Open(p) => value(p),
            _ => 0,
        }) <= worth(value, s.stack),
    decreases s.stack.len(),
{
    if s.stack.len() > 0 {
        let top = s.stack.last();
        let rest = WalkState { stack: s.stack.drop_last(), ..s };
        if s.policy.skip_mount_boundaries && top.dev != s.base_dev {
            lemma_descend_takes(
                WalkState {
                    counts: Counters { mount: s.counts.mount.wrapping_add(1), ..s.counts },
                    ..rest
                },
                value,
            );
        } else if s.policy.follow_symlinks && s.visited.contains(identity(top.dev, top.ino)) {
            lemma_descend_takes(rest, value);
        }
    }
}

/// What a directory that waits adds to the work ahead: itself, and its weight.
spec fn load(weight: spec_fn(Seq<u8>) -> nat) -> spec_fn(Seq<u8>) -> nat {
    |p: Seq<u8>| 1 + weight(p)
}

/// The weight of everything still to be entered.
spec fn ahead(w: World, weight: spec_fn(Seq<u8>) -> nat, t: Tour) -> int {
    let s = t.state;
    worth(load(weight), s.stack) + worth(load(weight), s.level) + (if s.phase == Phase::Opening {
        weight(s.dir) as int
    } else if listing(s) {
        burden(w, s.policy, weight, s.dir, entry_count(w, s.dir)) - burden(
            w,
            s.policy,
            weight,
            s.dir,
            done_with(t),
        )
    } else {
        0
    })
}

proof fn lemma_burden_grows(
    w: World,
    policy: Policy,
    weight: spec_fn(Seq<u8>) -> nat,
    d: Seq<u8>,
    a: int,
    b: int,
)
    requires
        a <= b,
    ensures
        burden(w, policy, weight, d, a) <= burden(w, policy, weight, d, b),
    decreases b - a,
{
    if a < b {
        lemma_burden_grows(w, policy, weight, d, a, b - 1);
    }
}

proof fn lemma_ahead(w: World, start: WalkState, weight: spec_fn(Seq<u8>) -> nat, t: Tour)
    requires
        sound(w, start, t),
        finite_tree(w, start.policy, weight),
        !(t.action is Finish),
    ensures
        ahead(w, weight, advance(w, t)) >= 0,
        leaves(w, t) && advance(w, t).action is Open ==> ahead(w, weight, advance(w, t)) < ahead(
            w,
            weight,
            t,
        ),
        !leaves(w, t) ==> ahead(w, weight, advance(w, t)) <= ahead(w, weight, t),
{
    let n = advance(w, t);
    let s = t.state;
    let d = s.dir;
    lemma_lasting(w, start, t);
    lemma_advance(w, start, t);
    assert(burden(w, start.policy, weight, d, entry_count(w, d)) <= weight(d));
    if listing(n.state) {
        lemma_burden_grows(
            w,
            start.policy,
            weight,
            n.state.dir,
            done_with(n),
            entry_count(w, n.state.dir),
        );
    }
    if listing(s) {
        lemma_burden_grows(w, start.policy, weight, d, done_with(t), entry_count(w, d));
    }
    if leaves(w, t) {
        lemma_leaving(w, start, t);
        let from = WalkState { stack: waiting(t), level: Seq::empty(), ..s };
        lemma_descend(from);
        lemma_descend_takes(from, load(weight));
        lemma_worth_reverse(load(weight), s.level);
        lemma_worth_sum(load(weight), s.stack, s.level.reverse());
        assert(n.state.level =~= Seq::<PendingView>::empty());
    } else if s.phase == Phase::Opening {
        assert(n.state.stack == s.stack && n.state.level == s.level);
    } else {
        assert(n.state.stack == s.stack);
        assert(n.state.dir == d);
        if n.state.level != s.level {
            let x = n.state.level.last();
            assert(n.state.level == s.level.push(x));
            assert(n.state.level.drop_last() =~= s.level);
            assert(x.rel == s.entry);
            assert(done_with(n) == t.read);
            assert(w.shows_at(start.policy, d, s.entry, t.read - 1));
        } else {
            assert(done_with(n) >= done_with(t));
            lemma_burden_grows(w, start.policy, weight, d, done_with(t), done_with(n));
        }
    }
}

proof fn lemma_finite_ends(w: World, start: WalkState, weight: spec_fn(Seq<u8>) -> nat, n: nat)
    requires
        unstarted(start),
        finite_tree(w, start.policy, weight),
        ahead(w, weight, tour(w, start, n)) >= 0,
    ensures
        exists|m: nat| (#[trigger] tour(w, start, m)).action is Finish,
    decreases ahead(w, weight, tour(w, start, n)), left(w, tour(w, start, n)),
{
    lemma_tour(w, start, n);
    let t = tour(w, start, n);
    if !(t.action is Finish) {
        lemma_tour(w, start, n + 1);
        let next = tour(w, start, n + 1);
        assert(next == advance(w, t));
        lemma_ahead(w, start, weight, t);
        if leaves(w, t) {
            lemma_leaving(w, start, t);
            lemma_descend(WalkState { stack: waiting(t), level: Seq::empty(), ..t.state });
            if next.action is Open {
                lemma_finite_ends(w, start, weight, n + 1);
            }
        } else {
            assert(left(w, next) < left(w, t));
            lemma_finite_ends(w, start, weight, n + 1);
        }
    }
}

/// A walk of a finite tree comes to an end.
pub proof fn law_finite_trees_are_finished(
    w: World,
    start: WalkState,
    weight: spec_fn(Seq<u8>) -> nat,
)
    requires
        unstarted(start),
        finite_tree(w, start.policy, weight),
    ensures
        exists|n: nat| (#[trigger] tour(w, start, n)).action is Finish,
{
    lemma_finite_ends(w, start, weight, 0);
}

/// The messages passed on, with the one just being.
pub open spec fn messages(t: Tour) -> Seq<MsgView> {
    match t.action {
        ActionView::Send(m) => t.sent.push(m),
        _ => t.sent,
    }
}

/// How many of these are files.
pub open spec fn files_in(msgs: Seq<MsgView>) -> nat
    decreases msgs.len(),
{
    if msgs.len() == 0 {
        0
    } else {
        files_in(msgs.drop_last()) + (if msgs.last() is Item {
            1
        } else {
            0nat
        })
    }
}

/// The sizes of the files among these, added up.
pub open spec fn bytes_in(msgs: Seq<MsgView>) -> nat
    decreases msgs.len(),
{
    if msgs.len() == 0 {
        0
    } else {
        bytes_in(msgs.drop_last()) + (match msgs.last() {
            MsgView::Item(o) => (o.size_bytes as u64) as nat,
            _ => 0,
        })
    }
}

/// Leaving a directory counts no file.
proof fn lemma_descend_counts(s: WalkState)
    ensures
        descend(s).0.counts == (Counters { mount: descend(s).0.counts.mount, ..s.counts }),
    decreases s.stack.len(),
{
    if s.stack.len() > 0 {
        let top = s.stack.last();
        let rest = WalkState { stack: s.stack.drop_last(), ..s };
        if s.policy.skip_mount_boundaries && top.dev != s.base_dev {
            lemma_descend_counts(
                WalkState {
                    counts: Counters { mount: s.counts.mount.wrapping_add(1), ..s.counts },
                    ..rest
                },
            );
        } else if s.policy.follow_symlinks && s.visited.contains(identity(top.dev, top.ino)) {
            lemma_descend_counts(rest);
        }
    }
}

/// The walk counts every file it passes on, and its bytes, and nothing else. It
/// leaves the counts of the hash workers alone. Counts are kept in 64 bits.
pub proof fn law_files_are_counted(w: World, start: WalkState, n: nat)
    requires
        unstarted(start),
        start.counts == no_counts(),
    ensures
        ({
            let t = tour(w, start, n);
            let c = t.state.counts;
            &&& c.discovered_files == files_in(messages(t)) % 0x1_0000_0000_0000_0000
            &&& c.discovered_bytes == bytes_in(messages(t)) % 0x1_0000_0000_0000_0000
            &&& c.hashed == 0 && c.hashed_bytes == 0 && c.changed_during_hash == 0
            &&& c.reused_stage == 0 && c.reused_baseline == 0
            &&& t.action is Finish ==> messages(t) == t.sent
        }),
    decreases n,
{
    if n > 0 {
        let t = tour(w, start, (n - 1) as nat);
        let next = tour(w, start, n);
        law_files_are_counted(w, start, (n - 1) as nat);
        lemma_tour(w, start, (n - 1) as nat);
        if !(t.action is Finish) {
            if leaves(w, t) {
                lemma_leaving(w, start, t);
                let from = WalkState { stack: waiting(t), level: Seq::empty(), ..t.state };
                lemma_descend(from);
                lemma_descend_counts(from);
            }
            assert(next.sent == messages(t));
            if let ActionView::Send(m) = next.action {
                assert(messages(next).drop_last() =~= messages(t));
                assert(messages(next).last() == m);
            } else {
                assert(messages(next) == messages(t));
            }
        }
    } else {
        assert(messages(tour(w, start, 0)) =~= Seq::<MsgView>::empty());
    }
}

/// Names as a filesystem gives them: none is empty or holds a separator, and no
/// listing shows one twice.
pub open spec fn tidy(w: World) -> bool {
    &&& forall|d: Seq<u8>, i: int|
        (#[trigger] w.name_at(d, i)) matches Some(name) ==> name.len() > 0 && !name.contains(0x2f)
    &&& forall|d: Seq<u8>, i: int, j: int|
        i != j && (#[trigger] w.name_at(d, i)) is Some ==> w.name_at(d, i) != #[trigger] w.name_at(
            d,
            j,
        )
}

impl World {
    /// The name at this place of a listing.
    pub open spec fn name_at(self, d: Seq<u8>, i: int) -> Option<Seq<u8>> {
        match (self.list)(d) {
            Ok(entries) => if 0 <= i < entries.len() {
                match entries[i] {
                    Ok(name) => Some(name),
                    Err(_) => None,
                }
            } else {
                None
            },
            Err(_) => None,
        }
    }
}

/// A path tells the directory it is in and its name there.
proof fn lemma_child_tells(d: Seq<u8>, a: Seq<u8>, e: Seq<u8>, b: Seq<u8>)
    requires
        a.len() > 0,
        b.len() > 0,
        !a.contains(0x2f),
        !b.contains(0x2f),
        child(d, a) == child(e, b),
    ensures
        d == e,
        a == b,
{
    let p = child(d, a);
    let from_a = p.len() - a.len();
    let from_b = p.len() - b.len();
    assert(p.skip(from_a) =~= a);
    assert(p.skip(from_b) =~= b);
    if from_a < from_b {
        assert(p[from_b - 1] == 0x2f);
        assert(a[from_b - 1 - from_a] == 0x2f);
    }
    if from_b < from_a {
        assert(p[from_a - 1] == 0x2f);
        assert(b[from_a - 1 - from_b] == 0x2f);
    }
    assert(a == b);
    assert(d =~= p.take(d.len() as int));
    assert(e =~= p.take(e.len() as int));
}

/// How often a path is among these.
spec fn times_in(paths: Seq<Seq<u8>>, p: Seq<u8>) -> nat
    decreases paths.len(),
{
    if paths.len() == 0 {
        0
    } else {
        times_in(paths.drop_last(), p) + (if paths.last() == p {
            1
        } else {
            0nat
        })
    }
}

proof fn lemma_times_in(paths: Seq<Seq<u8>>, p: Seq<u8>, i: int)
    requires
        0 <= i < paths.len(),
        paths[i] == p,
    ensures
        times_in(paths, p) >= 1,
        forall|j: int|
            0 <= j < paths.len() && j != i && #[trigger] paths[j] == p ==> times_in(paths, p) >= 2,
    decreases paths.len(),
{
    let rest = paths.drop_last();
    if i < rest.len() {
        lemma_times_in(rest, p, i);
        assert forall|j: int|
            0 <= j < paths.len() && j != i && #[trigger] paths[j] == p implies times_in(paths, p)
            >= 2 by {
            if j < rest.len() {
                assert(rest[j] == p);
            }
        }
    } else {
        assert forall|j: int|
            0 <= j < paths.len() && j != i && #[trigger] paths[j] == p implies times_in(paths, p)
            >= 2 by {
            assert(rest[j] == p);
            lemma_times_in(rest, p, j);
        }
    }
}

/// The paths of the files among these, and of nothing else.
spec fn file_paths(msgs: Seq<MsgView>) -> Seq<Seq<u8>>
    decreases msgs.len(),
{
    if msgs.len() == 0 {
        Seq::empty()
    } else {
        match msgs.last() {
            MsgView::Item(o) => file_paths(msgs.drop_last()).push(o.rel),
            _ => file_paths(msgs.drop_last()),
        }
    }
}

/// Two files with one path are two in the list of paths.
proof fn lemma_file_paths(msgs: Seq<MsgView>, p: Seq<u8>, i: int)
    requires
        0 <= i < msgs.len(),
        msgs[i] matches MsgView::Item(o) && o.rel == p,
    ensures
        times_in(file_paths(msgs), p) >= 1,
        forall|j: int|
            0 <= j < msgs.len() && j != i && ((#[trigger] msgs[j]) matches MsgView::Item(o) && o.rel
                == p) ==> times_in(file_paths(msgs), p) >= 2,
    decreases msgs.len(),
{
    let rest = msgs.drop_last();
    let before = file_paths(rest);
    if let MsgView::Item(o) = msgs.last() {
        assert(before.push(o.rel).drop_last() =~= before);
    }
    if i < rest.len() {
        lemma_file_paths(rest, p, i);
        assert forall|j: int|
            0 <= j < msgs.len() && j != i && ((#[trigger] msgs[j]) matches MsgView::Item(o) && o.rel
                == p) implies times_in(file_paths(msgs), p) >= 2 by {
            if j < rest.len() {
                assert(rest[j] == msgs[j]);
            }
        }
    } else {
        assert forall|j: int|
            0 <= j < msgs.len() && j != i && ((#[trigger] msgs[j]) matches MsgView::Item(o) && o.rel
                == p) implies times_in(file_paths(msgs), p) >= 2 by {
            assert(rest[j] == msgs[j]);
            lemma_file_paths(rest, p, j);
        }
    }
}

/// The directories asked for, with the one just being.
spec fn asked(t: Tour) -> Seq<Seq<u8>> {
    match t.action {
        ActionView::Open(p) => t.opened.push(p),
        _ => t.opened,
    }
}

/// One for this path and nothing for any other.
spec fn only(p: Seq<u8>) -> spec_fn(Seq<u8>) -> nat {
    |q: Seq<u8>|
        if q == p {
            1
        } else {
            0nat
        }
}

/// How often the walk has made something of this path: a directory asked for, one
/// that waits, or a file.
spec fn uses(t: Tour, p: Seq<u8>) -> nat {
    times_in(asked(t), p) + worth(only(p), t.state.stack) + worth(only(p), t.state.level)
        + times_in(file_paths(messages(t)), p)
}

/// The path is shown by a directory asked for, among the entries already dealt with.
spec fn settled_at(w: World, t: Tour, p: Seq<u8>, k: int, i: int) -> bool {
    0 <= k < t.opened.len() && 0 <= i < reach(w, t, k) && w.shows_at(
        t.state.policy,
        t.opened[k],
        p,
        i,
    )
}

/// No path has been used twice, and each that has been used was come upon.
spec fn orderly(w: World, t: Tour) -> bool {
    &&& forall|p: Seq<u8>| #[trigger] uses(t, p) <= 1
    &&& forall|p: Seq<u8>| #[trigger]
        uses(t, p) > 0 && p.len() > 0 ==> exists|k: int, i: int| settled_at(w, t, p, k, i)
}

/// Entries dealt with stay dealt with.
proof fn lemma_reach_grows(w: World, start: WalkState, t: Tour, k: int)
    requires
        sound(w, start, t),
        !(t.action is Finish),
        0 <= k < t.opened.len(),
    ensures
        k < advance(w, t).opened.len(),
        advance(w, t).opened[k] == t.opened[k],
        reach(w, t, k) <= reach(w, advance(w, t), k),
{
    let n = advance(w, t);
    if leaves(w, t) {
        lemma_leaving(w, start, t);
        lemma_descend(WalkState { stack: waiting(t), level: Seq::empty(), ..t.state });
    }
    if listing(t.state) && listing(n.state) {
        assert(done_with(n) >= done_with(t));
    }
}

/// The entry just examined has not been used before.
proof fn lemma_entry_is_new(w: World, start: WalkState, t: Tour)
    requires
        tidy(w),
        sound(w, start, t),
        orderly(w, t),
        t.state.phase == Phase::Stating || t.state.phase == Phase::Following,
    ensures
        uses(t, t.state.entry) == 0,
        t.state.entry.len() > 0,
{
    let s = t.state;
    let last = t.opened.len() - 1;
    let here = t.read - 1;
    assert(w.shows_at(s.policy, s.dir, s.entry, here));
    assert(w.name_at(s.dir, here) is Some);
    let name = w.name_at(s.dir, here)->0;
    assert(s.entry.len() > 0);
    if uses(t, s.entry) > 0 {
        let (k, i) = choose|k: int, i: int| settled_at(w, t, s.entry, k, i);
        assert(settled_at(w, t, s.entry, k, i));
        let d = t.opened[k];
        assert(w.name_at(d, i) is Some);
        let other = w.name_at(d, i)->0;
        lemma_child_tells(s.dir, name, d, other);
        assert(asked(t) == t.opened);
        lemma_times_in(t.opened, s.dir, last);
        assert(uses(t, s.dir) <= 1);
        assert(k == last);
        assert(i < here);
        assert(w.name_at(s.dir, i) != w.name_at(s.dir, here));
    }
}

/// What one answer adds to the use of a path.
proof fn lemma_uses_step(w: World, start: WalkState, t: Tour, p: Seq<u8>)
    requires
        sound(w, start, t),
        !(t.action is Finish),
    ensures
        ({
            let n = advance(w, t);
            let s = t.state;
            let examining = s.phase == Phase::Stating || s.phase == Phase::Following;
            &&& uses(n, p) <= uses(t, p) + (if examining && p == s.entry {
                1
            } else {
                0nat
            })
            &&& uses(n, p) > uses(t, p) ==> listing(n.state) && done_with(n) == done_with(t) + 1
        }),
{
    let n = advance(w, t);
    let s = t.state;
    lemma_lasting(w, start, t);
    assert(n.opened == asked(t));
    assert(n.sent == messages(t));
    if let ActionView::Send(m) = n.action {
        assert(messages(n).drop_last() =~= messages(t));
        if m is Item {
            let before = file_paths(messages(t));
            assert(before.push(m->Item_0.rel).drop_last() =~= before);
        }
    } else {
        assert(messages(n) == messages(t));
    }
    if leaves(w, t) {
        lemma_leaving(w, start, t);
        let from = WalkState { stack: waiting(t), level: Seq::empty(), ..s };
        lemma_descend(from);
        lemma_descend_takes(from, only(p));
        lemma_worth_reverse(only(p), s.level);
        lemma_worth_sum(only(p), s.stack, s.level.reverse());
        assert(n.state.level =~= Seq::<PendingView>::empty());
        if let ActionView::Open(q) = n.action {
            assert(asked(n).drop_last() =~= asked(t));
        }
    } else {
        assert(n.state.stack == s.stack);
        assert(asked(n) == asked(t));
        if n.state.level != s.level {
            let x = n.state.level.last();
            assert(n.state.level == s.level.push(x));
            assert(n.state.level.drop_last() =~= s.level);
        }
    }
}

proof fn lemma_orderly(w: World, start: WalkState, n: nat)
    requires
        tidy(w),
        unstarted(start),
    ensures
        orderly(w, tour(w, start, n)),
    decreases n,
{
    let t = tour(w, start, n);
    if n == 0 {
        reveal_with_fuel(times_in, 2);
        assert(asked(t) =~= seq![Seq::<u8>::empty()]);
        assert(asked(t).drop_last() =~= Seq::<Seq<u8>>::empty());
        assert(messages(t) =~= Seq::<MsgView>::empty());
    } else {
        let before = tour(w, start, (n - 1) as nat);
        lemma_orderly(w, start, (n - 1) as nat);
        lemma_tour(w, start, (n - 1) as nat);
        if !(before.action is Finish) {
            let s = before.state;
            lemma_lasting(w, start, before);
            lemma_tour(w, start, n);
            assert forall|p: Seq<u8>| #[trigger] uses(t, p) <= 1 by {
                lemma_uses_step(w, start, before, p);
                assert(uses(before, p) <= 1);
                if uses(t, p) > uses(before, p) {
                    lemma_entry_is_new(w, start, before);
                }
            }
            assert forall|p: Seq<u8>| #[trigger] uses(t, p) > 0 && p.len() > 0 implies exists|
                k: int,
                i: int,
            | settled_at(w, t, p, k, i) by {
                lemma_uses_step(w, start, before, p);
                if uses(before, p) > 0 {
                    let (k, i) = choose|k: int, i: int| settled_at(w, before, p, k, i);
                    assert(settled_at(w, before, p, k, i));
                    lemma_reach_grows(w, start, before, k);
                    assert(settled_at(w, t, p, k, i));
                } else {
                    let k = before.opened.len() - 1;
                    lemma_reach_grows(w, start, before, k);
                    assert(settled_at(w, t, p, k, before.read - 1));
                }
            }
        }
    }
}

/// Over a tree whose listings show each name once, every file is passed on at most
/// once, and every directory is asked for at most once, path by path.
pub proof fn law_nothing_is_met_twice(w: World, start: WalkState, n: nat)
    requires
        unstarted(start),
        tidy(w),
    ensures
        forall|i: int, j: int|
            0 <= i < j < tour(w, start, n).sent.len() ==> ((#[trigger] tour(
                w,
                start,
                n,
            ).sent[i]) matches MsgView::Item(a) ==> (#[trigger] tour(
                w,
                start,
                n,
            ).sent[j]) matches MsgView::Item(b) ==> a.rel != b.rel),
        tour(w, start, n).opened.no_duplicates(),
{
    lemma_orderly(w, start, n);
    let t = tour(w, start, n);
    let all = messages(t);
    assert forall|i: int, j: int| 0 <= i < j < t.sent.len() implies ((
    #[trigger] t.sent[i]) matches MsgView::Item(a) ==> (#[trigger] t.sent[j]) matches MsgView::Item(
        b,
    ) ==> a.rel != b.rel) by {
        assert(all[i] == t.sent[i] && all[j] == t.sent[j]);
        if let MsgView::Item(a) = t.sent[i] {
            assert(uses(t, a.rel) <= 1);
            lemma_file_paths(all, a.rel, i);
        }
    }
    assert forall|i: int, j: int| 0 <= i < j < t.opened.len() implies t.opened[i] != t.opened[
        j
    ] by {
        let p = t.opened[i];
        assert(asked(t)[i] == t.opened[i] && asked(t)[j] == t.opened[j]);
        assert(uses(t, p) <= 1);
        lemma_times_in(asked(t), p, i);
    }
}

/// A directory is asked for only where none is open: at the start, after a listing
/// has ended, or after one could not be opened.
pub proof fn law_one_directory_open(s: WalkState, e: EventView, cancelled: bool)
    ensures
        step(s, e, cancelled).1 is Open ==> {
            ||| s.phase == Phase::Idle
            ||| s.phase == Phase::Leaving
            ||| s.phase == Phase::Listing && e is End
        },
{
}

/// A directory's size and times play no part in the walk: they never keep it from
/// being entered.
pub proof fn law_directory_times_skip_nothing(s: WalkState, a: Meta, b: Meta, cancelled: bool)
    requires
        a.kind == EntryKind::Dir,
        b.kind == EntryKind::Dir,
        a.dev == b.dev,
        a.ino == b.ino,
    ensures
        step(s, EventView::Meta(a), cancelled) == step(s, EventView::Meta(b), cancelled),
{
}

/// A hidden entry is counted and nothing more: it is never examined.
pub proof fn law_hidden_entries_are_only_counted(s: WalkState, name: Seq<u8>)
    requires
        s.phase == Phase::Listing,
        !s.gone,
        hidden(s.policy, name),
    ensures
        step(s, EventView::Name(name), false) == (
            WalkState {
                counts: Counters { hidden: s.counts.hidden.wrapping_add(1), ..s.counts },
                ..s
            },
            ActionView::Next,
        ),
{
}

/// A walk that is cancelled asks for no further directory and examines nothing
/// more, once it is told of the next entry.
pub proof fn law_cancelled_walk_ends(s: WalkState, e: EventView)
    requires
        s.phase == Phase::Listing,
    ensures
        step(s, e, true).1 is Finish,
{
}

} // verus!
