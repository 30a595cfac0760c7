//! The indentation tracker: a prefix that always holds one fixed unit of
//! spaces per open nesting level.

use vstd::prelude::*;

use crate::model::SP;

verus! {

/// Indentation state of one formatting call: the per-level unit and the
/// current prefix, both byte strings of spaces.
pub struct Indent {
    one_tab: Vec<u8>,
    prefix: Vec<u8>,
}

impl Indent {
    /// The per-level indentation unit.
    pub closed spec fn tab(&self) -> Seq<u8> {
        self.one_tab@
    }

    /// The current prefix, one unit per open nesting level.
    pub closed spec fn prefix(&self) -> Seq<u8> {
        self.prefix@
    }

    /// A tracker for `width` spaces per nesting level, starting at depth
    /// zero: the unit is `width` spaces and the prefix is empty.
    pub fn new(width: usize) -> (r: Self)
        ensures
            r.tab() == Seq::new(width as nat, |i: int| SP),
            r.prefix() == Seq::<u8>::empty(),
    {
        let mut one_tab: Vec<u8> = Vec::new();
        let mut i: usize = 0;
        while i < width
            invariant
                i <= width,
                one_tab@ == Seq::new(i as nat, |j: int| SP),
            decreases width - i,
        {
            one_tab.push(SP);
            i = i + 1;
            proof {
                assert(one_tab@ =~= Seq::new(i as nat, |j: int| SP));
            }
        }
        let r = Indent { one_tab, prefix: Vec::new() };
        proof {
            assert(r.prefix() =~= Seq::<u8>::empty());
        }
        r
    }

    /// Number of bytes in the current prefix.
    pub fn prefix_len(&self) -> (n: usize)
        ensures
            n == self.prefix().len(),
    {
        self.prefix.len()
    }

    /// Number of bytes in one indentation unit.
    pub fn tab_len(&self) -> (n: usize)
        ensures
            n == self.tab().len(),
    {
        self.one_tab.len()
    }

    /// Enter one nesting level: append one unit to the prefix.
    pub fn push(&mut self)
        ensures
            final(self).prefix() == old(self).prefix() + old(self).tab(),
            final(self).tab() == old(self).tab(),
    {
        let ghost pre = *self;
        let mut i: usize = 0;
        let n = self.one_tab.len();
        while i < n
            invariant
                i <= n,
                n == self.one_tab@.len(),
                self.one_tab@ == pre.one_tab@,
                self.prefix@ == pre.prefix@ + self.one_tab@.take(i as int),
            decreases n - i,
        {
            let c = self.one_tab[i];
            self.prefix.push(c);
            i = i + 1;
            proof {
                assert(self.prefix@ =~= pre.prefix@ + self.one_tab@.take(i as int));
            }
        }
        proof {
            assert(self.prefix@ =~= pre.prefix@ + self.one_tab@);
        }
    }

    /// Leave one nesting level: remove the last unit from the prefix.
    /// Callers must balance every push with exactly one pop; popping an
    /// empty prefix is a contract violation, not a runtime condition.
    pub fn pop(&mut self)
        requires
            old(self).prefix().len() >= old(self).tab().len(),
        ensures
            final(self).prefix() == old(self).prefix().take(
                old(self).prefix().len() - old(self).tab().len(),
            ),
            final(self).tab() == old(self).tab(),
    {
        let keep = self.prefix.len() - self.one_tab.len();
        self.prefix.truncate(keep);
    }

    /// Write the current prefix to the sink.
    pub fn write_to(&self, w: &mut Vec<u8>)
        ensures
            final(w)@ == old(w)@ + self.prefix(),
    {
        let ghost base = w@;
        let mut i: usize = 0;
        let n = self.prefix.len();
        while i < n
            invariant
                i <= n,
                n == self.prefix@.len(),
                w@ == base + self.prefix@.take(i as int),
            decreases n - i,
        {
            let c = self.prefix[i];
            w.push(c);
            i = i + 1;
            proof {
                assert(w@ =~= base + self.prefix@.take(i as int));
            }
        }
        proof {
            assert(w@ =~= base + self.prefix@);
        }
    }
}

} // verus!
