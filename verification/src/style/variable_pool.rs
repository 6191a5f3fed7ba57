//! Container for storing interpreter variables in a layered stack of frames.

use vstd::prelude::*;

verus! {

/// Container that stores variables for the interpreter in a layered stack
/// structure: assignments go to the top frame, and popping a frame discards
/// them, reinstating earlier values.
pub struct VariablePool<V> {
    frames: Vec<Vec<(String, V)>>,
}

/// The value a frame holds for a variable: its last assignment there.
pub open spec fn frame_lookup<V>(f: Seq<(String, V)>, key: Seq<char>) -> Option<V>
    decreases f.len(),
{
    if f.len() == 0 {
        None
    } else if f.last().0@ == key {
        Some(f.last().1)
    } else {
        frame_lookup(f.drop_last(), key)
    }
}

/// The value of a variable: that of the topmost frame that assigns it.
pub open spec fn pool_lookup<V>(frames: Seq<Seq<(String, V)>>, key: Seq<char>) -> Option<V>
    decreases frames.len(),
{
    if frames.len() == 0 {
        None
    } else {
        match frame_lookup(frames.last(), key) {
            Some(v) => Some(v),
            None => pool_lookup(frames.drop_last(), key),
        }
    }
}

/// Frames after an assignment to the top frame.
pub open spec fn assigned<V>(frames: Seq<Seq<(String, V)>>, key: String, value: V) -> Seq<Seq<(String, V)>> {
    frames.update(frames.len() - 1, frames.last().push((key, value)))
}

impl<V> VariablePool<V> {
    /// A pool always keeps its bottom frame.
    #[verifier::type_invariant]
    spec fn keeps_bottom_frame(self) -> bool {
        self.frames@.len() >= 1
    }

    /// The frames, from the bottom up, each with its assignments in order.
    pub closed spec fn frames(&self) -> Seq<Seq<(String, V)>> {
        self.frames@.map_values(|f: Vec<(String, V)>| f@)
    }

    /// A new pool with one permanent frame and no variables.
    pub fn new() -> (r: Self)
        ensures
            r.frames() == seq![Seq::<(String, V)>::empty()],
    {
        let mut frames: Vec<Vec<(String, V)>> = Vec::new();
        frames.push(Vec::new());
        let r = VariablePool { frames };
        assert(r.frames() =~= seq![Seq::<(String, V)>::empty()]);
        r
    }

    /// Pushes a frame; assignments from now on belong to it.
    pub fn push(&mut self)
        ensures
            old(self).frames().len() >= 1,
            final(self).frames() == old(self).frames().push(Seq::empty()),
    {
        proof {
            use_type_invariant(&*self);
        }
        let mut frames = self.take_frames();
        frames.push(Vec::new());
        self.put_frames(frames);
        assert(self.frames() =~= old(self).frames().push(Seq::empty()));
    }

    /// Pops the top frame, discarding its assignments; the bottom frame is never popped.
    pub fn pop(&mut self)
        ensures
            old(self).frames().len() >= 1,
            final(self).frames() == if old(self).frames().len() > 1 {
                old(self).frames().drop_last()
            } else {
                old(self).frames()
            },
    {
        proof {
            use_type_invariant(&*self);
        }
        if self.frames.len() > 1 {
            let mut frames = self.take_frames();
            frames.pop();
            self.put_frames(frames);
            assert(self.frames() =~= old(self).frames().drop_last());
        }
    }

    /// Takes the frames out, leaving only an empty bottom frame behind.
    fn take_frames(&mut self) -> (r: Vec<Vec<(String, V)>>)
        ensures
            r@ == old(self).frames@,
            r@.len() >= 1,
    {
        proof {
            use_type_invariant(&*self);
        }
        let mut frames: Vec<Vec<(String, V)>> = Vec::new();
        frames.push(Vec::new());
        std::mem::swap(&mut frames, &mut self.frames);
        frames
    }

    /// Puts frames back in place.
    fn put_frames(&mut self, frames: Vec<Vec<(String, V)>>)
        requires
            frames@.len() >= 1,
        ensures
            final(self).frames@ == frames@,
    {
        let mut frames = frames;
        std::mem::swap(&mut frames, &mut self.frames);
    }

    /// The most recent value assigned to a variable in a frame that was not popped.
    pub fn get(&self, key: &str) -> (r: Option<&V>)
        ensures
            self.frames().len() >= 1,
            match pool_lookup(self.frames(), key@) {
                Some(v) => r == Some(&v),
                None => r is None,
            },
    {
        proof {
            use_type_invariant(self);
        }
        let ghost fs = self.frames();
        let mut i = self.frames.len();
        assert(fs.take(i as int) =~= fs);
        while i > 0
            invariant
                fs == self.frames(),
                i <= fs.len(),
                pool_lookup(fs, key@) == pool_lookup(fs.take(i as int), key@),
            decreases i,
        {
            let frame = &self.frames[i - 1];
            let ghost f = frame@;
            assert(fs[i - 1] == f);
            let mut j = frame.len();
            assert(f.take(j as int) =~= f);
            while j > 0
                invariant
                    f == frame@,
                    j <= f.len(),
                    fs == self.frames(),
                    0 < i <= fs.len(),
                    fs[i - 1] == f,
                    pool_lookup(fs, key@) == pool_lookup(fs.take(i as int), key@),
                    frame_lookup(f, key@) == frame_lookup(f.take(j as int), key@),
                decreases j,
            {
                assert(f.take(j as int).drop_last() =~= f.take(j - 1));
                if crate::text::str_eq(frame[j - 1].0.as_str(), key) {
                    proof {
                        assert(fs.take(i as int).last() == f);
                    }
                    return Some(&frame[j - 1].1);
                }
                j -= 1;
            }
            proof {
                assert(frame_lookup(f.take(0), key@) is None);
                assert(fs.take(i as int).drop_last() =~= fs.take(i - 1));
                assert(fs.take(i as int).last() == f);
            }
            i -= 1;
        }
        proof {
            assert(fs.take(0).len() == 0);
        }
        None
    }

    /// Assigns a value to a variable in the top frame.
    pub fn insert(&mut self, variable_name: String, value: V)
        ensures
            old(self).frames().len() >= 1,
            final(self).frames() == assigned(old(self).frames(), variable_name, value),
    {
        proof {
            use_type_invariant(&*self);
        }
        let mut frames = self.take_frames();
        let last = frames.len() - 1;
        let mut top = frames.remove(last);
        top.push((variable_name, value));
        frames.push(top);
        self.put_frames(frames);
        assert(self.frames() =~= assigned(old(self).frames(), variable_name, value));
    }
}

impl<V> Default for VariablePool<V> {
    fn default() -> (r: Self)
        ensures
            r.frames() == seq![Seq::<(String, V)>::empty()],
    {
        Self::new()
    }
}

/// A variable reads back the value last assigned to it, and assigning one
/// variable leaves every other variable as it was.
pub proof fn lemma_read_after_write<V>(frames: Seq<Seq<(String, V)>>, key: String, value: V, other: Seq<char>)
    requires
        frames.len() > 0,
    ensures
        pool_lookup(assigned(frames, key, value), key@) == Some(value),
        other != key@ ==> pool_lookup(assigned(frames, key, value), other) == pool_lookup(frames, other),
{
    let a = assigned(frames, key, value);
    assert(a.last() == frames.last().push((key, value)));
    assert(a.drop_last() =~= frames.drop_last());
    assert(frames.last().push((key, value)).drop_last() =~= frames.last());
}

/// Pushing a frame changes no variable, and popping it afterwards restores
/// the pool exactly, whatever was assigned in between.
pub proof fn lemma_push_pop<V>(frames: Seq<Seq<(String, V)>>, key: Seq<char>, top: Seq<(String, V)>)
    requires
        frames.len() > 0,
    ensures
        pool_lookup(frames.push(Seq::empty()), key) == pool_lookup(frames, key),
        frames.push(top).drop_last() == frames,
{
    assert(frames.push(Seq::empty()).drop_last() =~= frames);
    assert(frames.push(top).drop_last() =~= frames);
}

/// Frames after a sequence of assignments to the top frame, in order.
pub open spec fn assigned_all<V>(frames: Seq<Seq<(String, V)>>, assignments: Seq<(String, V)>) -> Seq<
    Seq<(String, V)>,
>
    decreases assignments.len(),
{
    if assignments.len() == 0 {
        frames
    } else {
        assigned(assigned_all(frames, assignments.drop_last()), assignments.last().0, assignments.last().1)
    }
}

/// After a frame is pushed, any number of assignments go to it alone, and
/// popping it restores every earlier frame: each variable reads as before
/// the push.
pub proof fn lemma_pop_discards_assignments<V>(
    frames: Seq<Seq<(String, V)>>,
    assignments: Seq<(String, V)>,
    key: Seq<char>,
)
    requires
        frames.len() >= 1,
    ensures
        assigned_all(frames.push(Seq::empty()), assignments).len() == frames.len() + 1,
        assigned_all(frames.push(Seq::empty()), assignments).drop_last() == frames,
        pool_lookup(assigned_all(frames.push(Seq::empty()), assignments).drop_last(), key) == pool_lookup(frames, key),
    decreases assignments.len(),
{
    if assignments.len() == 0 {
        assert(frames.push(Seq::empty()).drop_last() =~= frames);
    } else {
        lemma_pop_discards_assignments(frames, assignments.drop_last(), key);
        let before = assigned_all(frames.push(Seq::empty()), assignments.drop_last());
        let after = assigned(before, assignments.last().0, assignments.last().1);
        assert(after.drop_last() =~= before.drop_last());
    }
}

} // verus!
