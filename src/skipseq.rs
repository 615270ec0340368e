//! A single-owner ID allocator that hands out increasing IDs and lets its
//! owner mark future IDs as already resolved, so that they are never issued.

use vstd::prelude::*;

verus! {

/// The abstract state of a skip sequence: the next ID that has not been
/// passed yet, and the IDs at or beyond it that are marked as resolved.
pub struct SkipState {
    pub cursor: nat,
    pub marks: Set<nat>,
}

impl SkipState {
    /// `r` is the first unmarked ID at or beyond the cursor.
    pub open spec fn is_first_free(self, r: nat) -> bool {
        &&& r >= self.cursor
        &&& !self.marks.contains(r)
        &&& forall|k: nat| self.cursor <= k < r ==> #[trigger] self.marks.contains(k)
    }

    /// The ID that the next call of `next` issues.
    pub open spec fn first_free(self) -> nat {
        choose|r: nat| self.is_first_free(r)
    }

    /// The state after `next`: everything up to the issued ID is passed.
    pub open spec fn after_next(self) -> SkipState {
        let r = self.first_free();
        SkipState { cursor: r + 1, marks: self.marks.filter(|k: nat| k > r) }
    }

    /// Whether `skip(id)` accepts `id`.
    pub open spec fn accepts(self, id: nat) -> bool {
        id >= self.cursor
    }

    /// The state after `skip(id)`.
    pub open spec fn after_skip(self, id: nat) -> SkipState {
        if self.accepts(id) {
            SkipState { cursor: self.cursor, marks: self.marks.insert(id) }
        } else {
            self
        }
    }

    /// Marks never lie behind the cursor, and there are finitely many.
    pub open spec fn valid(self) -> bool {
        &&& self.marks.finite()
        &&& forall|k: nat| #[trigger] self.marks.contains(k) ==> k >= self.cursor
    }
}

/// Two IDs that are both first free are the same.
pub proof fn lemma_first_free_unique(s: SkipState, a: nat, b: nat)
    requires
        s.is_first_free(a),
        s.is_first_free(b),
    ensures
        a == b,
{
    if a < b {
        assert(s.marks.contains(a));
    } else if b < a {
        assert(s.marks.contains(b));
    }
}

/// A state with finitely many marks has a first free ID.
pub proof fn lemma_first_free_exists(s: SkipState)
    requires
        s.marks.finite(),
    ensures
        s.is_first_free(s.first_free()),
    decreases s.marks.len(),
{
    if !s.marks.contains(s.cursor) {
        assert(s.is_first_free(s.cursor));
    } else {
        let t = SkipState { cursor: s.cursor + 1, marks: s.marks.remove(s.cursor) };
        lemma_first_free_exists(t);
        let r = t.first_free();
        assert forall|k: nat| s.cursor <= k < r implies #[trigger] s.marks.contains(k) by {
            if k > s.cursor {
                assert(t.marks.contains(k));
            }
        }
        assert(s.is_first_free(r));
    }
}

/// One call on a skip sequence, for reasoning about runs of calls.
pub enum SkipOp {
    Next,
    Skip(nat),
}

/// The IDs that `next` issues along a run of calls that starts in `s`.
pub open spec fn issued(s: SkipState, ops: Seq<SkipOp>) -> Seq<nat>
    decreases ops.len(),
{
    if ops.len() == 0 {
        Seq::empty()
    } else {
        match ops[0] {
            SkipOp::Next => seq![s.first_free()] + issued(s.after_next(), ops.drop_first()),
            SkipOp::Skip(id) => issued(s.after_skip(id), ops.drop_first()),
        }
    }
}

proof fn lemma_resolved_never_issued(t: SkipState, id: nat, ops: Seq<SkipOp>)
    requires
        t.valid(),
        t.marks.contains(id) || id < t.cursor,
    ensures
        !issued(t, ops).contains(id),
    decreases ops.len(),
{
    if ops.len() > 0 {
        let rest = ops.drop_first();
        match ops[0] {
            SkipOp::Next => {
                lemma_first_free_exists(t);
                let r = t.first_free();
                let u = t.after_next();
                assert(u.marks =~= t.marks.intersect(Set::new(|k: nat| k > r)));
                assert(u.valid());
                lemma_resolved_never_issued(u, id, rest);
                assert(issued(t, ops) == seq![r] + issued(u, rest));
                assert(r != id);
                if issued(t, ops).contains(id) {
                    let j = choose|j: int| 0 <= j < issued(t, ops).len() && issued(t, ops)[j] == id;
                    assert(issued(u, rest)[j - 1] == id);
                }
            },
            SkipOp::Skip(k) => {
                lemma_resolved_never_issued(t.after_skip(k), id, rest);
            },
        }
    }
}

/// An ID that `skip` accepts is never issued by any later run of calls.
pub proof fn lemma_skipped_never_issued(s: SkipState, id: nat, ops: Seq<SkipOp>)
    requires
        s.valid(),
        s.accepts(id),
    ensures
        !issued(s.after_skip(id), ops).contains(id),
{
    lemma_resolved_never_issued(s.after_skip(id), id, ops);
}

proof fn lemma_below_finite(b: nat)
    ensures
        Set::new(|x: nat| x < b).finite(),
    decreases b,
{
    if b == 0 {
        assert(Set::new(|x: nat| x < b) =~= Set::empty());
    } else {
        lemma_below_finite((b - 1) as nat);
        assert(Set::new(|x: nat| x < b) =~= Set::new(|x: nat| x < (b - 1) as nat).insert(
            (b - 1) as nat,
        ));
    }
}

/// An allocator of increasing IDs in which IDs at or beyond the cursor can
/// be marked so that `next` passes over them.
///
/// The ID at index `i` of `skip` is `passed + i`; indices below `offset`
/// are behind the cursor.
#[derive(Clone, Debug, Default, PartialEq, Eq, Hash)]
pub struct SkipSeq {
    passed: usize,
    offset: usize,
    skip: Vec<bool>,
}

impl View for SkipSeq {
    type V = SkipState;

    closed spec fn view(&self) -> SkipState {
        let passed = self.passed as nat;
        let cursor = passed + self.offset as nat;
        SkipState {
            cursor,
            marks: Set::new(
                |id: nat|
                    cursor <= id < passed + self.skip@.len() && self.skip@[id - passed],
            ),
        }
    }
}

impl SkipSeq {
    /// The representation is consistent with its model.
    pub closed spec fn wf(&self) -> bool {
        self.passed + self.offset <= usize::MAX
    }

    /// Every skip sequence is valid.
    pub proof fn lemma_valid(&self)
        ensures
            self@.valid(),
    {
        let b = self.passed + self.skip@.len();
        lemma_below_finite(b as nat);
        assert(self@.marks =~= self@.marks.intersect(Set::new(|x: nat| x < b)));
    }

    /// A sequence whose first issued ID is `start`, with nothing marked.
    pub fn new(start: usize) -> (r: Self)
        ensures
            r.wf(),
            r@.valid(),
            r@.cursor == start,
            r@.marks == Set::<nat>::empty(),
    {
        let r = Self::init(start, Vec::new());
        proof {
            assert(r@.marks =~= Set::<nat>::empty());
        }
        r
    }

    /// As `new`, with room for `capacity` marks before the storage grows.
    pub fn with_capacity(start: usize, capacity: usize) -> (r: Self)
        ensures
            r.wf(),
            r@.valid(),
            r@.cursor == start,
            r@.marks == Set::<nat>::empty(),
    {
        let r = Self::init(start, Vec::with_capacity(capacity));
        proof {
            assert(r@.marks =~= Set::<nat>::empty());
        }
        r
    }

    /// A sequence whose cursor is `offset`, where `skip[i]` marks ID `i` for
    /// every `i` at or beyond it.
    pub fn init(offset: usize, skip: Vec<bool>) -> (r: Self)
        ensures
            r.wf(),
            r@.valid(),
            r@.cursor == offset,
            r@.marks == Set::new(|id: nat| offset <= id < skip@.len() && skip@[id as int]),
    {
        let r = Self { passed: 0, offset, skip };
        proof {
            r.lemma_valid();
            assert(r@.marks =~= Set::new(
                |id: nat| offset <= id < r.skip@.len() && r.skip@[id as int],
            ));
        }
        r
    }

    /// The cursor: no ID below it is issued from now on.
    pub fn peek(&self) -> (r: usize)
        requires
            self.wf(),
        ensures
            r == self@.cursor,
    {
        self.passed + self.offset
    }

    /// Issues the first ID at or beyond the cursor that is not marked.
    pub fn next(&mut self) -> (r: usize)
        requires
            old(self).wf(),
            old(self)@.first_free() < usize::MAX,
        ensures
            final(self).wf(),
            final(self)@.valid(),
            r == old(self)@.first_free(),
            final(self)@ == old(self)@.after_next(),
    {
        let ghost s0 = self@;
        proof {
            self.lemma_valid();
            lemma_first_free_exists(s0);
        }
        let ghost bound = s0.first_free();
        while self.offset < self.skip.len() && self.skip[self.offset]
            invariant
                self.passed == old(self).passed,
                self.skip@ == old(self).skip@,
                old(self).offset <= self.offset,
                s0 == old(self)@,
                s0.is_first_free(bound),
                bound < usize::MAX,
                self.passed + self.offset <= bound,
                forall|k: nat| s0.cursor <= k < self.passed + self.offset ==> #[trigger] s0.marks.contains(k),
            decreases self.skip@.len() - self.offset,
        {
            proof {
                let id = (self.passed + self.offset) as nat;
                assert(s0.marks.contains(id));
                if id == bound {
                    assert(false);
                }
            }
            self.offset = self.offset + 1;
        }
        let res = self.passed + self.offset;
        proof {
            assert(!s0.marks.contains(res as nat));
            assert(s0.is_first_free(res as nat));
            lemma_first_free_unique(s0, res as nat, bound);
        }
        self.offset = self.offset + 1;
        proof {
            self.lemma_valid();
            assert(self@.marks =~= s0.after_next().marks);
        }
        res
    }

    /// Issues the next ID as `next` does, where it is at most `limit` (and
    /// below the largest `usize`); otherwise returns `None` and changes
    /// nothing.
    pub fn next_within(&mut self, limit: usize) -> (r: Option<usize>)
        requires
            old(self).wf(),
        ensures
            final(self).wf(),
            final(self)@.valid(),
            ({
                let f = old(self)@.first_free();
                if f <= limit && f < usize::MAX {
                    r == Some(f as usize) && final(self)@ == old(self)@.after_next()
                } else {
                    r is None && *final(self) == *old(self)
                }
            }),
    {
        let ghost s0 = self@;
        proof {
            self.lemma_valid();
            lemma_first_free_exists(s0);
        }
        let ghost bound = s0.first_free();
        let mut j = self.offset;
        while j < self.skip.len() && self.skip[j]
            invariant
                s0 == self@,
                self.wf(),
                self.offset <= j,
                s0.is_first_free(bound),
                self.passed + j <= bound,
                forall|k: nat| s0.cursor <= k < self.passed + j ==> #[trigger] s0.marks.contains(k),
            decreases self.skip@.len() - j,
        {
            proof {
                let id = (self.passed + j) as nat;
                assert(s0.marks.contains(id));
                if id == bound {
                    assert(false);
                }
            }
            j = j + 1;
        }
        proof {
            assert(!s0.marks.contains((self.passed + j) as nat));
            assert(s0.is_first_free((self.passed + j) as nat));
            lemma_first_free_unique(s0, (self.passed + j) as nat, bound);
        }
        if self.passed > limit || j > limit - self.passed {
            return None;
        }
        let id = self.passed + j;
        if id == usize::MAX {
            return None;
        }
        self.offset = j + 1;
        proof {
            self.lemma_valid();
            assert(self@.marks =~= s0.after_next().marks);
        }
        Some(id)
    }

    /// Marks `n` as resolved, so that `next` never issues it, and returns
    /// `true`; returns `false` and changes nothing when `n` is behind the
    /// cursor.
    pub fn skip(&mut self, n: usize) -> (r: bool)
        requires
            old(self).wf(),
            n < usize::MAX,
        ensures
            final(self).wf(),
            final(self)@.valid(),
            r == old(self)@.accepts(n as nat),
            final(self)@ == old(self)@.after_skip(n as nat),
            !r ==> *final(self) == *old(self),
            old(self)@.marks.contains(n as nat) ==> *final(self) == *old(self),
    {
        if n >= self.peek() {
            let i = n - self.passed;
            let len = self.skip.len();
            if i >= len {
                self.skip.reserve(i + 1 - len);
                self.skip.resize(i + 1, false);
            }
            if !self.skip[i] {
                self.skip.set(i, true);
            }
            proof {
                assert(self@.marks =~= old(self)@.marks.insert(n as nat));
                self.lemma_valid();
            }
            true
        } else {
            proof {
                self.lemma_valid();
            }
            false
        }
    }
}

} // verus!
