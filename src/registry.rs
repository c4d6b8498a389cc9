use vstd::prelude::*;

verus! {

/// The elements of `s` at the positions where `d` holds, in their order.
pub open spec fn keep<T>(s: Seq<T>, d: Seq<bool>) -> Seq<T>
    decreases s.len(),
{
    if s.len() == 0 || d.len() == 0 {
        Seq::empty()
    } else if d[0] {
        seq![s[0]] + keep(s.drop_first(), d.drop_first())
    } else {
        keep(s.drop_first(), d.drop_first())
    }
}

/// `s` is strictly increasing.
pub open spec fn increasing(s: Seq<u64>) -> bool {
    forall|i: int, j: int| 0 <= i < j < s.len() ==> s[i] < s[j]
}

/// For each element of `s`, whether it differs from `id`.
pub open spec fn other_than(s: Seq<u64>, id: u64) -> Seq<bool> {
    s.map_values(|x: u64| x != id)
}

proof fn lemma_keep_len<T, U>(s: Seq<T>, t: Seq<U>, d: Seq<bool>)
    requires
        s.len() == t.len(),
    ensures
        keep(s, d).len() == keep(t, d).len(),
    decreases s.len(),
{
    if s.len() > 0 && d.len() > 0 {
        lemma_keep_len(s.drop_first(), t.drop_first(), d.drop_first());
    }
}

/// An element is kept exactly when it stands at some position that `d` marks.
pub proof fn lemma_keep_contains<T>(s: Seq<T>, d: Seq<bool>, x: T)
    requires
        s.len() == d.len(),
    ensures
        keep(s, d).contains(x) <==> exists|i: int| 0 <= i < s.len() && s[i] == x && d[i],
    decreases s.len(),
{
    if s.len() > 0 {
        let (s1, d1) = (s.drop_first(), d.drop_first());
        lemma_keep_contains(s1, d1, x);
        if keep(s, d).contains(x) {
            if d[0] && x == s[0] {
            } else {
                if d[0] {
                    let k = choose|k: int| 0 <= k < keep(s, d).len() && keep(s, d)[k] == x;
                    assert(keep(s1, d1)[k - 1] == x);
                }
                let i = choose|i: int| 0 <= i < s1.len() && s1[i] == x && d1[i];
                assert(s[i + 1] == x && d[i + 1]);
            }
        }
        if exists|i: int| 0 <= i < s.len() && s[i] == x && d[i] {
            let i = choose|i: int| 0 <= i < s.len() && s[i] == x && d[i];
            if i == 0 {
                assert(keep(s, d)[0] == x);
            } else {
                assert(s1[i - 1] == x && d1[i - 1]);
                let k = choose|k: int| 0 <= k < keep(s1, d1).len() && keep(s1, d1)[k] == x;
                if d[0] {
                    assert(keep(s, d)[k + 1] == x);
                } else {
                    assert(keep(s, d)[k] == x);
                }
            }
        }
    }
}

proof fn lemma_keep_increasing(s: Seq<u64>, d: Seq<bool>)
    requires
        s.len() == d.len(),
        increasing(s),
    ensures
        increasing(keep(s, d)),
    decreases s.len(),
{
    if s.len() > 0 {
        let (s1, d1) = (s.drop_first(), d.drop_first());
        lemma_keep_increasing(s1, d1);
        if d[0] {
            let k = keep(s, d);
            assert forall|i: int, j: int| 0 <= i < j < k.len() implies k[i] < k[j] by {
                if i == 0 {
                    assert(keep(s1, d1).contains(k[j]));
                    lemma_keep_contains(s1, d1, k[j]);
                }
            }
        }
    }
}

proof fn lemma_keep_step<T>(s: Seq<T>, d: Seq<bool>, j: int)
    requires
        s.len() == d.len(),
        0 < j <= s.len(),
    ensures
        keep(s.subrange(j - 1, s.len() as int), d.subrange(j - 1, s.len() as int)) == if d[j - 1] {
            seq![s[j - 1]] + keep(s.subrange(j, s.len() as int), d.subrange(j, s.len() as int))
        } else {
            keep(s.subrange(j, s.len() as int), d.subrange(j, s.len() as int))
        },
{
    let n = s.len() as int;
    assert(s.subrange(j - 1, n).drop_first() =~= s.subrange(j, n));
    assert(d.subrange(j - 1, n).drop_first() =~= d.subrange(j, n));
}

/// The ordered set of live connections, each an outbound handle under an id.
///
/// Ids are handed out in increasing order and never twice, so the order of
/// the entries is the order in which the connections joined.
pub struct Registry<H> {
    ids: Vec<u64>,
    handles: Vec<H>,
    next_id: u64,
    log: Ghost<Seq<(Seq<char>, Seq<u64>)>>,
}

impl<H> Registry<H> {
    /// The ids of the registered connections, in joining order.
    pub closed spec fn ids(&self) -> Seq<u64> {
        self.ids@
    }

    /// The handles, position for position with `ids`.
    pub closed spec fn handles(&self) -> Seq<H> {
        self.handles@
    }

    /// The id that the next registration receives.
    pub closed spec fn next_id(&self) -> nat {
        self.next_id as nat
    }

    /// Every delivery pass so far, oldest first: the frame, and the ids
    /// that it was written to without failure.
    pub closed spec fn log(&self) -> Seq<(Seq<char>, Seq<u64>)> {
        self.log@
    }

    pub open spec fn wf(&self) -> bool {
        &&& self.ids().len() == self.handles().len()
        &&& increasing(self.ids())
        &&& forall|i: int| 0 <= i < self.ids().len() ==> self.ids()[i] < self.next_id()
        &&& self.next_id() <= u64::MAX
    }

    pub fn new() -> (r: Registry<H>)
        ensures
            r.wf(),
            r.ids() == Seq::<u64>::empty(),
            r.handles() == Seq::<H>::empty(),
            r.next_id() == 0,
            r.log() == Seq::<(Seq<char>, Seq<u64>)>::empty(),
    {
        Registry { ids: Vec::new(), handles: Vec::new(), next_id: 0, log: Ghost(Seq::empty()) }
    }

    pub fn len(&self) -> (r: usize)
        requires
            self.wf(),
        ensures
            r == self.ids().len(),
    {
        self.ids.len()
    }

    pub fn is_empty(&self) -> (r: bool)
        requires
            self.wf(),
        ensures
            r == (self.ids().len() == 0),
    {
        self.ids.len() == 0
    }

    /// Adds a connection's handle under a fresh id, or hands the handle back
    /// once every id has been used.
    pub fn register(&mut self, handle: H) -> (r: Result<u64, H>)
        requires
            old(self).wf(),
        ensures
            final(self).wf(),
            old(self).next_id() < u64::MAX ==> r == Ok::<u64, H>(old(self).next_id() as u64),
            old(self).next_id() == u64::MAX ==> r == Err::<u64, H>(handle),
            r is Ok ==> {
                &&& final(self).ids() == old(self).ids().push(r->Ok_0)
                &&& final(self).handles() == old(self).handles().push(handle)
                &&& final(self).next_id() == old(self).next_id() + 1
            },
            final(self).log() == old(self).log(),
            r is Err ==> *final(self) == *old(self),
    {
        if self.next_id == u64::MAX {
            return Err(handle);
        }
        let id = self.next_id;
        self.ids.push(id);
        self.handles.push(handle);
        self.next_id = id + 1;
        Ok(id)
    }

    /// The id of the connection at `index`.
    pub fn id_at(&self, index: usize) -> (r: u64)
        requires
            self.wf(),
            index < self.ids().len(),
        ensures
            r == self.ids()[index as int],
    {
        self.ids[index]
    }

    /// Whether a connection with this id is registered.
    pub fn contains(&self, id: u64) -> (r: bool)
        requires
            self.wf(),
        ensures
            r == self.ids().contains(id),
    {
        let mut i: usize = 0;
        while i < self.ids.len()
            invariant
                i <= self.ids@.len(),
                forall|k: int| 0 <= k < i ==> self.ids@[k] != id,
            decreases self.ids@.len() - i,
        {
            if self.ids[i] == id {
                return true;
            }
            i = i + 1;
        }
        false
    }

    /// The handle at `index`, to write to it in place.
    pub fn handle_mut(&mut self, index: usize) -> (r: &mut H)
        requires
            old(self).wf(),
            index < old(self).ids().len(),
        ensures
            *r == old(self).handles()[index as int],
            final(self).handles() == old(self).handles().update(index as int, *final(r)),
            final(self).ids() == old(self).ids(),
            final(self).next_id() == old(self).next_id(),
            final(self).log() == old(self).log(),
            final(self).wf(),
    {
        &mut self.handles[index]
    }

    /// Drops, after a delivery pass, each connection whose write failed:
    /// `delivered[i]` tells whether the write to position `i` succeeded.
    /// Positions are removed from the last one down, so that the positions
    /// still to be removed stay valid; the survivors keep their order.
    pub fn retain_delivered(&mut self, delivered: &Vec<bool>)
        requires
            old(self).wf(),
            delivered@.len() == old(self).ids().len(),
        ensures
            final(self).wf(),
            final(self).ids() == keep(old(self).ids(), delivered@),
            final(self).handles() == keep(old(self).handles(), delivered@),
            final(self).next_id() == old(self).next_id(),
            final(self).log() == old(self).log(),
            forall|i: int|
                0 <= i < delivered@.len() ==> (final(self).ids().contains(old(self).ids()[i])
                    <==> delivered@[i]),
    {
        let ghost s = self.ids@;
        let ghost h = self.handles@;
        let ghost d = delivered@;
        let ghost n = s.len() as int;
        let mut j: usize = self.ids.len();
        assert(s.subrange(n, n) =~= Seq::<u64>::empty());
        assert(h.subrange(n, n) =~= Seq::<H>::empty());
        assert(d.subrange(n, n) =~= Seq::<bool>::empty());
        assert(s.subrange(0, n) =~= s);
        assert(h.subrange(0, n) =~= h);
        while j > 0
            invariant
                j <= n,
                n == s.len() == h.len() == d.len(),
                d == delivered@,
                self.ids@ == s.subrange(0, j as int) + keep(s.subrange(j as int, n), d.subrange(j as int, n)),
                self.handles@ == h.subrange(0, j as int) + keep(h.subrange(j as int, n), d.subrange(j as int, n)),
                self.next_id == old(self).next_id,
                self.log == old(self).log,
            decreases j,
        {
            proof {
                lemma_keep_step(s, d, j as int);
                lemma_keep_step(h, d, j as int);
            }
            let ghost ks = keep(s.subrange(j as int, n), d.subrange(j as int, n));
            let ghost kh = keep(h.subrange(j as int, n), d.subrange(j as int, n));
            proof {
                lemma_keep_len(s.subrange(j as int, n), h.subrange(j as int, n), d.subrange(j as int, n));
            }
            if !delivered[j - 1] {
                self.ids.remove(j - 1);
                self.handles.remove(j - 1);
                assert(self.ids@ =~= s.subrange(0, j - 1) + ks);
                assert(self.handles@ =~= h.subrange(0, j - 1) + kh);
            } else {
                assert(self.ids@ =~= s.subrange(0, j - 1) + (seq![s[j - 1]] + ks));
                assert(self.handles@ =~= h.subrange(0, j - 1) + (seq![h[j - 1]] + kh));
            }
            j = j - 1;
        }
        proof {
            assert(s.subrange(0, n) =~= s);
            assert(d.subrange(0, n) =~= d);
            assert(h.subrange(0, n) =~= h);
            assert(self.ids@ =~= keep(s, d));
            assert(self.handles@ =~= keep(h, d));
            lemma_keep_len(s, h, d);
            lemma_keep_increasing(s, d);
            assert forall|i: int| 0 <= i < self.ids@.len() implies self.ids@[i] < self.next_id by {
                assert(keep(s, d).contains(self.ids@[i]));
                lemma_keep_contains(s, d, self.ids@[i]);
            }
            assert forall|i: int| 0 <= i < d.len() implies (self.ids@.contains(s[i]) <==> d[i]) by {
                lemma_keep_contains(s, d, s[i]);
                if self.ids@.contains(s[i]) {
                    let k = choose|k: int| 0 <= k < s.len() && s[k] == s[i] && d[k];
                    assert(k == i) by {
                        if k < i { assert(s[k] < s[i]); }
                        if k > i { assert(s[i] < s[k]); }
                    }
                }
            }
        }
    }

    /// Ends a delivery pass of `frame`: drops each connection whose write
    /// failed, as `retain_delivered` does, logs the pass, and returns the
    /// ids that received the frame, in registry order.
    pub fn finish_pass(&mut self, frame: &str, delivered: &Vec<bool>) -> (r: Vec<u64>)
        requires
            old(self).wf(),
            delivered@.len() == old(self).ids().len(),
        ensures
            final(self).wf(),
            final(self).ids() == keep(old(self).ids(), delivered@),
            final(self).handles() == keep(old(self).handles(), delivered@),
            final(self).next_id() == old(self).next_id(),
            r@ == final(self).ids(),
            final(self).log() == old(self).log().push((frame@, r@)),
            forall|i: int|
                0 <= i < delivered@.len() ==> (final(self).ids().contains(old(self).ids()[i])
                    <==> delivered@[i]),
    {
        self.retain_delivered(delivered);
        let recipients = self.ids.clone();
        self.log = Ghost(self.log@.push((frame@, recipients@)));
        recipients
    }

    /// Removes the connection with this id, if it is registered; tells
    /// whether it was.
    pub fn unregister(&mut self, id: u64) -> (r: bool)
        requires
            old(self).wf(),
        ensures
            final(self).wf(),
            r == old(self).ids().contains(id),
            final(self).ids() == keep(old(self).ids(), other_than(old(self).ids(), id)),
            final(self).handles() == keep(old(self).handles(), other_than(old(self).ids(), id)),
            final(self).next_id() == old(self).next_id(),
            final(self).log() == old(self).log(),
            !final(self).ids().contains(id),
            forall|x: u64| x != id ==> (final(self).ids().contains(x) <==> old(self).ids().contains(x)),
    {
        let ghost s = self.ids@;
        let mut mask: Vec<bool> = Vec::new();
        let mut found = false;
        let mut i: usize = 0;
        while i < self.ids.len()
            invariant
                i <= s.len(),
                self.ids@ == s,
                mask@ == other_than(s, id).subrange(0, i as int),
                found == s.subrange(0, i as int).contains(id),
            decreases s.len() - i,
        {
            let x = self.ids[i];
            mask.push(x != id);
            if x == id {
                found = true;
            }
            proof {
                let pre = s.subrange(0, i as int);
                let next = s.subrange(0, i + 1);
                assert(next =~= pre.push(x));
                if x == id {
                    assert(next[i as int] == id);
                } else if next.contains(id) {
                    let k = choose|k: int| 0 <= k < next.len() && next[k] == id;
                    assert(pre[k] == id);
                }
                assert(mask@ =~= other_than(s, id).subrange(0, i + 1));
            }
            i = i + 1;
        }
        assert(s.subrange(0, s.len() as int) =~= s);
        assert(mask@ =~= other_than(s, id));
        self.retain_delivered(&mask);
        proof {
            lemma_keep_contains(s, mask@, id);
            assert forall|x: u64| x != id implies (self.ids@.contains(x) <==> s.contains(x)) by {
                lemma_keep_contains(s, mask@, x);
                if s.contains(x) {
                    let k = choose|k: int| 0 <= k < s.len() && s[k] == x;
                    assert(mask@[k]);
                }
            }
        }
        found
    }
}

} // verus!
