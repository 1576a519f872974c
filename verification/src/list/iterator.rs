use vstd::prelude::*;
use vstd::string::*;
use crate::list::List;

verus! {

/// Walks the tasks of a list in heap order.
pub struct ListIterator<'list> {
    list: &'list List,
    index: usize,
}

impl<'list> ListIterator<'list> {
    /// The list walked.
    pub closed spec fn walked(&self) -> List {
        *self.list
    }

    /// The index of the task that `next` gives next.
    pub closed spec fn position(&self) -> usize {
        self.index
    }

    pub fn new(list: &'list List) -> (it: ListIterator<'list>)
        ensures
            it.walked() == *list,
            it.position() == 0,
    {
        ListIterator { list, index: 0 }
    }

    /// The task at the current position, if there is one; moves one on.
    pub fn next(&mut self) -> (r: Option<&'list str>)
        requires
            old(self).walked().wf(),
            old(self).walked().readable_at(old(self).position() as int),
            old(self).position() < usize::MAX,
        ensures
            final(self).walked() == old(self).walked(),
            final(self).position() == old(self).position() + 1,
            old(self).position() < old(self).walked()@.len() ==> (r matches Some(s)
                && s.spec_bytes() == old(self).walked()@[old(self).position() as int]),
            old(self).position() >= old(self).walked()@.len() ==> r is None,
    {
        let result = self.list.get(self.index);
        self.index = self.index + 1;
        result
    }
}

} // verus!
