//! Hook installer: redirects a target address to an interposer while
//! keeping the original entry reachable through a trampoline, and records
//! every installed hook so interposers can look the original up before
//! calling through.  Code patching itself is modeled by `CodeImage`, a
//! patch backend over explicit (address, behavior) slots; the process's real
//! patching primitive takes its place outside the library.

use vstd::prelude::*;

verus! {

/// First-match lookup of an address among (address, behavior) slots.
pub open spec fn slot_lookup(s: Seq<(usize, usize)>, addr: usize) -> Option<usize>
    decreases s.len(),
{
    if s.len() == 0 {
        None
    } else if s[0].0 == addr {
        Some(s[0].1)
    } else {
        slot_lookup(s.drop_first(), addr)
    }
}

pub proof fn lemma_slot_lookup_at(s: Seq<(usize, usize)>, addr: usize, i: int)
    requires
        0 <= i < s.len(),
        s[i].0 == addr,
        forall|k: int| 0 <= k < i ==> (#[trigger] s[k]).0 != addr,
    ensures
        slot_lookup(s, addr) == Some(s[i].1),
    decreases s.len(),
{
    if i > 0 {
        assert(s.drop_first()[i - 1] == s[i]);
        assert forall|k: int| 0 <= k < i - 1 implies (#[trigger] s.drop_first()[k]).0 != addr by {
            assert(s.drop_first()[k] == s[k + 1]);
        }
        lemma_slot_lookup_at(s.drop_first(), addr, i - 1);
    }
}

pub proof fn lemma_slot_lookup_none(s: Seq<(usize, usize)>, addr: usize)
    requires
        forall|k: int| 0 <= k < s.len() ==> (#[trigger] s[k]).0 != addr,
    ensures
        slot_lookup(s, addr) is None,
    decreases s.len(),
{
    if s.len() > 0 {
        assert forall|k: int|
            0 <= k < s.drop_first().len() implies (#[trigger] s.drop_first()[k]).0 != addr by {
            assert(s.drop_first()[k] == s[k + 1]);
        }
        lemma_slot_lookup_none(s.drop_first(), addr);
    }
}

/// A model of the process's patchable code: each known address carries the
/// behavior that transferring control there reaches.  Patching moves the
/// target's behavior to a fresh trampoline address and redirects the target.
pub struct CodeImage {
    slots: Vec<(usize, usize)>,
    next_trampoline: usize,
}

impl CodeImage {
    /// Addresses are unique and every slot lies below the trampoline
    /// allocation point, so freshly allocated trampolines never collide.
    pub closed spec fn wf(&self) -> bool {
        &&& forall|i: int, j: int|
            0 <= i < j < self.slots@.len() ==> (#[trigger] self.slots@[i]).0 != (
            #[trigger] self.slots@[j]).0
        &&& forall|i: int|
            0 <= i < self.slots@.len() ==> (#[trigger] self.slots@[i]).0 < self.next_trampoline
    }

    /// The behavior reached by transferring control to `addr`.
    pub closed spec fn dispatch(&self, addr: usize) -> Option<usize> {
        slot_lookup(self.slots@, addr)
    }

    /// A trampoline address can still be allocated.
    pub closed spec fn can_allocate(&self) -> bool {
        self.next_trampoline < usize::MAX
    }

    pub fn new() -> (r: CodeImage)
        ensures
            r.wf(),
            r.can_allocate(),
            forall|a: usize| r.dispatch(a) is None,
    {
        let r = CodeImage { slots: Vec::new(), next_trampoline: 0 };
        proof {
            assert forall|a: usize| r.dispatch(a) is None by {
                lemma_slot_lookup_none(r.slots@, a);
            }
        }
        r
    }

    /// Places code with the given behavior at an address nothing occupies
    /// yet.
    pub fn define(&mut self, addr: usize, behavior: usize)
        requires
            old(self).wf(),
            old(self).dispatch(addr) is None,
            addr < usize::MAX,
        ensures
            final(self).wf(),
            final(self).dispatch(addr) == Some(behavior),
            forall|a: usize| a != addr ==> final(self).dispatch(a) == old(self).dispatch(a),
            old(self).can_allocate() && addr < usize::MAX - 1 ==> final(self).can_allocate(),
    {
        let ghost pre = self.slots@;
        proof {
            assert forall|k: int| 0 <= k < pre.len() implies (#[trigger] pre[k]).0 != addr by {
                if pre[k].0 == addr {
                    lemma_slot_lookup_at(pre, addr, choose|i: int|
                        0 <= i < pre.len() && (#[trigger] pre[i]).0 == addr && forall|m: int|
                            0 <= m < i ==> (#[trigger] pre[m]).0 != addr);
                }
            }
        }
        self.slots.push((addr, behavior));
        if self.next_trampoline <= addr {
            self.next_trampoline = addr + 1;
        }
        proof {
            assert(self.slots@ =~= pre.push((addr, behavior)));
            lemma_slot_lookup_at(self.slots@, addr, pre.len() as int);
            assert forall|a: usize| a != addr implies self.dispatch(a) == slot_lookup(pre, a) by {
                lemma_lookup_push_other(pre, a, (addr, behavior));
            }
        }
    }

    /// The behavior reached at an address, the probe a test backend
    /// observes dispatch through.
    pub fn behavior_at(&self, addr: usize) -> (r: Option<usize>)
        ensures
            r == self.dispatch(addr),
    {
        match find_slot(&self.slots, addr) {
            Some(i) => Some(self.slots[i].1),
            None => None,
        }
    }

    /// Redirects `target` to the interposer behavior and returns the fresh
    /// trampoline address through which the target's previous behavior
    /// stays reachable; `None` when nothing is known at `target`.
    pub fn patch(&mut self, target: usize, interposer: usize) -> (r: Option<usize>)
        requires
            old(self).wf(),
            old(self).can_allocate(),
        ensures
            final(self).wf(),
            match r {
                None => old(self).dispatch(target) is None && *final(self) == *old(self),
                Some(t) => {
                    &&& old(self).dispatch(target) is Some
                    &&& old(self).dispatch(t) is None
                    &&& t != target
                    &&& final(self).dispatch(target) == Some(interposer)
                    &&& final(self).dispatch(t) == old(self).dispatch(target)
                    &&& forall|a: usize|
                        a != target && a != t ==> final(self).dispatch(a) == old(self).dispatch(a)
                },
            },
    {
        let idx = match find_slot(&self.slots, target) {
            Some(i) => i,
            None => {
                return None;
            },
        };
        let ghost pre = self.slots@;
        let orig = self.slots[idx].1;
        let tramp = self.next_trampoline;
        proof {
            assert forall|k: int| 0 <= k < pre.len() implies (#[trigger] pre[k]).0 != tramp by {}
            lemma_slot_lookup_none(pre, tramp);
        }
        let pair = self.slots.remove(idx);
        self.slots.insert(idx, (target, interposer));
        self.slots.push((tramp, orig));
        self.next_trampoline = tramp + 1;
        proof {
            let post = self.slots@;
            assert(pair == pre[idx as int]);
            assert forall|k: int|
                0 <= k < pre.len() implies post[k] == (if k == idx {
                (target, interposer)
            } else {
                pre[k]
            }) by {}
            assert(post[pre.len() as int] == (tramp, orig));
            assert(post.len() == pre.len() + 1);
            // uniqueness carries over: addresses are unchanged except the
            // appended trampoline, which lies above them all
            assert forall|i: int, j: int|
                0 <= i < j < post.len() implies (#[trigger] post[i]).0 != (#[trigger] post[j]).0 by {
                if j < pre.len() {
                    assert(post[i].0 == pre[i].0 && post[j].0 == pre[j].0);
                } else {
                    assert(post[i].0 == pre[i].0 && post[j].0 == tramp);
                }
            }
            assert forall|k: int| 0 <= k < idx implies (#[trigger] post[k]).0 != target by {
                assert(post[k].0 == pre[k].0);
                assert(pre[idx as int].0 == target);
            }
            lemma_slot_lookup_at(post, target, idx as int);
            lemma_slot_lookup_at(post, tramp, pre.len() as int);
            lemma_slot_lookup_at(pre, target, idx as int);
            assert(self.dispatch(target) == Some(interposer));
            assert(self.dispatch(tramp) == Some(orig));
            assert forall|a: usize|
                a != target && a != tramp implies self.dispatch(a) == slot_lookup(pre, a) by {
                lemma_lookup_skew(pre, post, idx as int, a);
            }
        }
        Some(tramp)
    }
}

/// Appending a slot for another address leaves a lookup unchanged.
proof fn lemma_lookup_push_other(s: Seq<(usize, usize)>, addr: usize, entry: (usize, usize))
    requires
        entry.0 != addr,
    ensures
        slot_lookup(s.push(entry), addr) == slot_lookup(s, addr),
    decreases s.len(),
{
    if s.len() == 0 {
        assert(s.push(entry)[0] == entry);
        assert(s.push(entry).drop_first() =~= Seq::<(usize, usize)>::empty());
        assert(slot_lookup(Seq::<(usize, usize)>::empty(), addr) is None);
    } else {
        assert(s.push(entry)[0] == s[0]);
        assert(s.push(entry).drop_first() =~= s.drop_first().push(entry));
        lemma_lookup_push_other(s.drop_first(), addr, entry);
    }
}

/// A lookup for an address whose slots are untouched sees neither the
/// replaced slot nor the appended one.
proof fn lemma_lookup_skew(pre: Seq<(usize, usize)>, post: Seq<(usize, usize)>, idx: int, a: usize)
    requires
        0 <= idx < pre.len(),
        post.len() == pre.len() + 1,
        forall|k: int| 0 <= k < pre.len() && k != idx ==> post[k] == pre[k],
        post[idx].0 == pre[idx].0,
        pre[idx].0 != a,
        post[post.len() - 1].0 != a,
    ensures
        slot_lookup(post, a) == slot_lookup(pre, a),
    decreases pre.len(),
{
    if idx == 0 {
        if pre.len() == 1 {
            assert(post.drop_first() =~= seq![post[1]]);
            assert(slot_lookup(post.drop_first(), a) is None) by {
                lemma_slot_lookup_none(post.drop_first(), a);
            }
            assert(slot_lookup(pre.drop_first(), a) is None) by {
                assert(pre.drop_first() =~= Seq::<(usize, usize)>::empty());
                lemma_slot_lookup_none(pre.drop_first(), a);
            }
        } else {
            assert(post[0].0 != a && pre[0].0 != a);
            lemma_lookup_tail(pre.drop_first(), post.drop_first(), a);
        }
    } else {
        assert(post[0] == pre[0]);
        if pre[0].0 != a {
            lemma_lookup_skew(pre.drop_first(), post.drop_first(), idx - 1, a);
        }
    }
}

/// Appending one non-matching slot at the end leaves a lookup unchanged.
proof fn lemma_lookup_tail(pre: Seq<(usize, usize)>, post: Seq<(usize, usize)>, a: usize)
    requires
        post.len() == pre.len() + 1,
        forall|k: int| 0 <= k < pre.len() ==> post[k] == pre[k],
        post[post.len() - 1].0 != a,
    ensures
        slot_lookup(post, a) == slot_lookup(pre, a),
    decreases pre.len(),
{
    if pre.len() == 0 {
        assert(post[0].0 != a);
        assert(post.drop_first() =~= Seq::<(usize, usize)>::empty());
    } else {
        assert(post[0] == pre[0]);
        if pre[0].0 != a {
            lemma_lookup_tail(pre.drop_first(), post.drop_first(), a);
        }
    }
}

fn find_slot(slots: &Vec<(usize, usize)>, addr: usize) -> (r: Option<usize>)
    ensures
        match r {
            Some(i) => i < slots@.len() && slots@[i as int].0 == addr && slot_lookup(
                slots@,
                addr,
            ) == Some(slots@[i as int].1),
            None => slot_lookup(slots@, addr) is None,
        },
{
    let n = slots.len();
    let mut i: usize = 0;
    while i < n
        invariant
            n == slots@.len(),
            i <= n,
            forall|k: int| 0 <= k < i ==> (#[trigger] slots@[k]).0 != addr,
        decreases n - i,
    {
        if slots[i].0 == addr {
            proof {
                lemma_slot_lookup_at(slots@, addr, i as int);
            }
            return Some(i);
        }
        i += 1;
    }
    proof {
        lemma_slot_lookup_none(slots@, addr);
    }
    None
}

/// One installed hook: the target that was patched, the interposer that now
/// receives its calls, and the trampoline that still reaches the original.
#[derive(Clone, Copy, PartialEq, Eq, Structural, Debug)]
pub struct HookRecord {
    pub target: usize,
    pub interposer: usize,
    pub original: usize,
}

/// First-match lookup of the original pointer recorded for a target.
pub open spec fn record_lookup(s: Seq<HookRecord>, target: usize) -> Option<usize>
    decreases s.len(),
{
    if s.len() == 0 {
        None
    } else if s[0].target == target {
        Some(s[0].original)
    } else {
        record_lookup(s.drop_first(), target)
    }
}

proof fn lemma_record_lookup_push(s: Seq<HookRecord>, rec: HookRecord)
    requires
        record_lookup(s, rec.target) is None,
    ensures
        record_lookup(s.push(rec), rec.target) == Some(rec.original),
    decreases s.len(),
{
    if s.len() == 0 {
        assert(s.push(rec)[0] == rec);
    } else {
        assert(s.push(rec)[0] == s[0]);
        assert(s.push(rec).drop_first() =~= s.drop_first().push(rec));
        lemma_record_lookup_push(s.drop_first(), rec);
    }
}

proof fn lemma_record_lookup_none(s: Seq<HookRecord>, target: usize)
    requires
        forall|k: int| 0 <= k < s.len() ==> (#[trigger] s[k]).target != target,
    ensures
        record_lookup(s, target) is None,
    decreases s.len(),
{
    if s.len() > 0 {
        assert forall|k: int|
            0 <= k < s.drop_first().len() implies (#[trigger] s.drop_first()[k]).target
            != target by {
            assert(s.drop_first()[k] == s[k + 1]);
        }
        lemma_record_lookup_none(s.drop_first(), target);
    }
}

proof fn lemma_record_lookup_some(s: Seq<HookRecord>, target: usize)
    ensures
        record_lookup(s, target) is Some ==> exists|i: int|
            0 <= i < s.len() && (#[trigger] s[i]).target == target,
    decreases s.len(),
{
    if s.len() > 0 && s[0].target != target {
        lemma_record_lookup_some(s.drop_first(), target);
        if record_lookup(s.drop_first(), target) is Some {
            let i = choose|i: int|
                0 <= i < s.drop_first().len() && (#[trigger] s.drop_first()[i]).target == target;
            assert(s[i + 1].target == target);
        }
    }
}

/// The set of installed hooks, one record per target, created once and kept
/// for the process lifetime.
pub struct HookRegistry {
    records: Vec<HookRecord>,
}

impl View for HookRegistry {
    type V = Seq<HookRecord>;

    closed spec fn view(&self) -> Seq<HookRecord> {
        self.records@
    }
}

impl HookRegistry {
    /// A hook has been recorded for this target.
    pub open spec fn has_target(&self, target: usize) -> bool {
        record_lookup(self@, target) is Some
    }

    /// The recorded original pointer for a target.
    pub open spec fn spec_original_of(&self, target: usize) -> Option<usize> {
        record_lookup(self@, target)
    }

    pub fn new() -> (r: HookRegistry)
        ensures
            r@ == Seq::<HookRecord>::empty(),
    {
        let r = HookRegistry { records: Vec::new() };
        r
    }

    /// Installation: patches the target so control reaches the interposer,
    /// and records the trampoline as the one valid way to invoke the
    /// original ("pre-hook") behavior.  Re-hooking a target is not
    /// supported and is excluded by precondition; `None` reports a target
    /// the code image does not know, which callers treat as fatal.
    pub fn install(&mut self, code: &mut CodeImage, target: usize, interposer: usize) -> (r:
        Option<usize>)
        requires
            old(code).wf(),
            old(code).can_allocate(),
            !old(self).has_target(target),
        ensures
            final(code).wf(),
            match r {
                None => old(code).dispatch(target) is None && *final(code) == *old(code)
                    && final(self)@ == old(self)@,
                Some(orig) => {
                    &&& old(code).dispatch(target) is Some
                    &&& final(code).dispatch(target) == Some(interposer)
                    &&& final(code).dispatch(orig) == old(code).dispatch(target)
                    &&& orig != target
                    &&& forall|a: usize|
                        a != target && a != orig ==> final(code).dispatch(a) == old(
                            code,
                        ).dispatch(a)
                    &&& final(self)@ == old(self)@.push(
                        HookRecord { target, interposer, original: orig },
                    )
                    &&& final(self).spec_original_of(target) == Some(orig)
                },
            },
    {
        let tramp = match code.patch(target, interposer) {
            Some(t) => t,
            None => {
                return None;
            },
        };
        let rec = HookRecord { target, interposer, original: tramp };
        self.records.push(rec);
        proof {
            lemma_record_lookup_push(old(self)@, rec);
        }
        Some(tramp)
    }

    /// The recorded original pointer: the presence check every interposer
    /// makes before calling through.
    pub fn original_of(&self, target: usize) -> (r: Option<usize>)
        ensures
            r == self.spec_original_of(target),
    {
        proof {
            lemma_record_lookup_some(self@, target);
        }
        let n = self.records.len();
        let mut i: usize = 0;
        while i < n
            invariant
                n == self@.len(),
                i <= n,
                forall|k: int| 0 <= k < i ==> (#[trigger] self@[k]).target != target,
            decreases n - i,
        {
            if self.records[i].target == target {
                proof {
                    lemma_record_lookup_at(self@, target, i as int);
                }
                return Some(self.records[i].original);
            }
            i += 1;
        }
        proof {
            lemma_record_lookup_none(self@, target);
        }
        None
    }
}

proof fn lemma_record_lookup_at(s: Seq<HookRecord>, target: usize, i: int)
    requires
        0 <= i < s.len(),
        s[i].target == target,
        forall|k: int| 0 <= k < i ==> (#[trigger] s[k]).target != target,
    ensures
        record_lookup(s, target) == Some(s[i].original),
    decreases s.len(),
{
    if i > 0 {
        assert(s.drop_first()[i - 1] == s[i]);
        assert forall|k: int|
            0 <= k < i - 1 implies (#[trigger] s.drop_first()[k]).target != target by {
            assert(s.drop_first()[k] == s[k + 1]);
        }
        lemma_record_lookup_at(s.drop_first(), target, i - 1);
    }
}

} // verus!
