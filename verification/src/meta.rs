use vstd::prelude::*;

verus! {

/// Bookkeeping for the configuration file a store was built from: the
/// last modification stamp that was seen, and whether a newer one has
/// arrived since the last reset. The stamp is an opaque monotonic
/// number; whoever watches the file supplies it.
#[derive(Debug, Clone, PartialEq)]
pub struct Meta {
    pub last_modified: Option<u64>,
    pub file_changed: bool,
    pub path: String,
}

impl Meta {
    /// Start watching: nothing has changed yet.
    pub fn new(path: String, last_modified: Option<u64>) -> (r: Meta)
        ensures
            r.path@ == path@,
            r.last_modified == last_modified,
            !r.file_changed,
    {
        Meta { last_modified, file_changed: false, path }
    }

    /// Feed the current modification stamp and learn whether the file
    /// has changed since the last reset: a stamp newer than the last
    /// seen one, or a first stamp after none, raises the flag; no stamp
    /// leaves everything as it was.
    pub fn has_changed(&mut self, modified: Option<u64>) -> (r: bool)
        ensures
            final(self).path == old(self).path,
            match (modified, old(self).last_modified) {
                (Some(m), Some(last)) => {
                    &&& final(self).last_modified == Some(m)
                    &&& final(self).file_changed == (old(self).file_changed || m > last)
                },
                (Some(m), None) => {
                    &&& final(self).last_modified == Some(m)
                    &&& final(self).file_changed
                },
                (None, _) => *final(self) == *old(self),
            },
            r == final(self).file_changed,
    {
        match (modified, self.last_modified) {
            (Some(m), Some(last)) => {
                if m > last {
                    self.file_changed = true;
                }
                self.last_modified = Some(m);
            },
            (Some(m), None) => {
                self.file_changed = true;
                self.last_modified = Some(m);
            },
            (None, _) => {},
        }
        self.file_changed
    }

    /// Acknowledge the change: the flag goes down, the stamp stays.
    pub fn reset(&mut self)
        ensures
            !final(self).file_changed,
            final(self).last_modified == old(self).last_modified,
            final(self).path == old(self).path,
    {
        self.file_changed = false;
    }
}

} // verus!
