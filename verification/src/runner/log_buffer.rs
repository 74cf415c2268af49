use vstd::prelude::*;

verus! {

/// The captured output of one task: its lines, and a version counter that
/// changes on every mutation so that readers can tell a stale copy apart.
#[derive(Debug, Clone)]
pub struct LogBuffer {
    pub lines: Vec<String>,
    pub version: usize,
}

/// The version that follows `v`: one more, wrapping around at `usize::MAX`.
pub open spec fn next_version(v: usize) -> usize {
    if v == usize::MAX {
        0
    } else {
        (v + 1) as usize
    }
}

/// Every change gives a version other than the one before, so a copy
/// taken before the change is seen to be stale.
pub proof fn lemma_next_version_differs(v: usize)
    ensures
        next_version(v) != v,
{
}

impl LogBuffer {
    /// The lines of the buffer, each taken by its characters.
    pub open spec fn line_views(&self) -> Seq<Seq<char>> {
        self.lines@.map_values(|l: String| l@)
    }

    /// Appends one line and bumps the version.
    pub fn push(&mut self, line: String)
        ensures
            final(self).lines@ == old(self).lines@.push(line),
            final(self).version == next_version(old(self).version),
    {
        self.lines.push(line);
        self.version = self.version.wrapping_add(1);
    }

    /// Removes every line and bumps the version.
    pub fn clear(&mut self)
        ensures
            final(self).lines@ == Seq::<String>::empty(),
            final(self).version == next_version(old(self).version),
    {
        self.lines.clear();
        self.version = self.version.wrapping_add(1);
    }

    /// Whether a copy of this log taken earlier, `cached`, is stale: there is
    /// none, or the log has changed since, as its version tells.
    pub fn stale_copy(&self, cached: Option<&LogBuffer>) -> (r: bool)
        ensures
            r == match cached {
                None => true,
                Some(c) => c.version != self.version,
            },
    {
        match cached {
            None => true,
            Some(c) => c.version != self.version,
        }
    }

    /// The number of lines held.
    pub fn len(&self) -> (n: usize)
        ensures
            n == self.lines@.len(),
    {
        self.lines.len()
    }
}

impl Default for LogBuffer {
    fn default() -> (b: Self)
        ensures
            b.lines@ == Seq::<String>::empty(),
            b.version == 0,
    {
        LogBuffer { lines: Vec::new(), version: 0 }
    }
}

} // verus!
