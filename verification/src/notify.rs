//! In-app notifications (toasts): shown with a fresh id, dismissed by id
//! (by the user, or by a timer the interface runs).

use vstd::prelude::*;

verus! {

/// One notification.
pub struct Toast {
    pub id: u32,
    pub title: String,
    pub body: String,
}

/// The notifications on screen, oldest first, and the next id to give.
pub struct Toasts {
    pub list: Vec<Toast>,
    pub next: u32,
}

impl Toasts {
    /// Every id on screen was given before `next`, and no two are equal.
    pub open spec fn wf(&self) -> bool {
        &&& forall|i: int| 0 <= i < self.list.len() ==> (#[trigger] self.list@[i]).id < self.next
        &&& forall|i: int, j: int| 0 <= i < j < self.list.len() ==> (#[trigger] self.list@[i]).id != (#[trigger] self.list@[j]).id
    }

    pub fn new() -> (r: Toasts)
        ensures
            r.list@.len() == 0,
            r.next == 0,
            r.wf(),
    {
        Toasts { list: Vec::new(), next: 0 }
    }

    /// Shows a notification; returns the id the interface dismisses it by
    /// after ten seconds.
    pub fn show(&mut self, title: String, body: String) -> (id: u32)
        requires
            old(self).wf(),
            old(self).next < u32::MAX,
        ensures
            id == old(self).next,
            final(self).next == old(self).next + 1,
            final(self).list@.len() == old(self).list@.len() + 1,
            final(self).list@.take(old(self).list@.len() as int) == old(self).list@,
            final(self).list@.last().id == id,
            final(self).list@.last().title@ == title@,
            final(self).list@.last().body@ == body@,
            final(self).wf(),
    {
        let id = self.next;
        self.next = self.next + 1;
        let ghost before = self.list@;
        self.list.push(Toast { id, title, body });
        proof {
            assert(self.list@.take(before.len() as int) =~= before);
            assert forall|i: int, j: int| 0 <= i < j < self.list@.len() implies (#[trigger] self.list@[i]).id != (#[trigger] self.list@[j]).id by {
                if j < before.len() {
                    assert(self.list@[i] == before[i] && self.list@[j] == before[j]);
                } else {
                    assert(self.list@[i] == before[i]);
                }
            }
        }
        id
    }

    /// Removes the notification with `id`, if it is still shown.
    pub fn dismiss(&mut self, id: u32)
        requires
            old(self).wf(),
        ensures
            final(self).next == old(self).next,
            final(self).list@ == old(self).list@.filter(|t: Toast| t.id != id),
            final(self).wf(),
    {
        let ghost before = self.list@;
        let mut kept: Vec<Toast> = Vec::new();
        let mut i: usize = 0;
        while i < self.list.len()
            invariant
                i <= self.list.len(),
                self.list@ == before,
                kept@ == before.take(i as int).filter(|t: Toast| t.id != id),
            decreases self.list.len() - i,
        {
            proof {
                assert(before.take(i + 1).drop_last() == before.take(i as int));
                assert(before.take(i + 1).last() == before[i as int]);
                reveal(Seq::filter);
            }
            if self.list[i].id != id {
                let t = Toast { id: self.list[i].id, title: self.list[i].title.clone(), body: self.list[i].body.clone() };
                kept.push(t);
            }
            i = i + 1;
        }
        proof {
            assert(before.take(before.len() as int) == before);
        }
        self.list = kept;
        proof {
            lemma_filter_keeps_wf(before, id, self.next);
        }
    }
}

proof fn lemma_filter_keeps_wf(list: Seq<Toast>, id: u32, next: u32)
    requires
        forall|i: int| 0 <= i < list.len() ==> (#[trigger] list[i]).id < next,
        forall|i: int, j: int| 0 <= i < j < list.len() ==> (#[trigger] list[i]).id != (#[trigger] list[j]).id,
    ensures
        ({
            let f = list.filter(|t: Toast| t.id != id);
            &&& forall|i: int| 0 <= i < f.len() ==> (#[trigger] f[i]).id < next
            &&& forall|i: int, j: int| 0 <= i < j < f.len() ==> (#[trigger] f[i]).id != (#[trigger] f[j]).id
        }),
    decreases list.len(),
{
    reveal(Seq::filter);
    if list.len() > 0 {
        let pre = list.drop_last();
        lemma_filter_keeps_wf(pre, id, next);
        let fp = pre.filter(|t: Toast| t.id != id);
        let f = list.filter(|t: Toast| t.id != id);
        if list.last().id != id {
            assert(f == fp.push(list.last()));
            assert forall|i: int| 0 <= i < fp.len() implies (#[trigger] fp[i]).id != list.last().id by {
                assert(fp.contains(fp[i]));
                pre.lemma_filter_contains_rev(|t: Toast| t.id != id, fp[i]);
                let k = choose|k: int| 0 <= k < pre.len() && pre[k] == fp[i];
                assert(pre[k] == list[k]);
                assert(list[k].id != list[list.len() - 1].id);
            }
            assert forall|i: int, j: int| 0 <= i < j < f.len() implies (#[trigger] f[i]).id != (#[trigger] f[j]).id by {
                if j < fp.len() {
                    assert(f[i] == fp[i] && f[j] == fp[j]);
                } else {
                    assert(f[i] == fp[i]);
                }
            }
        }
    }
}


/// Dismissing the toast just shown undoes the show: every older toast has
/// a smaller id, so the list is back to what it was.
pub proof fn lemma_dismiss_undoes_show(list: Seq<Toast>, next: u32, t: Toast)
    requires
        forall|i: int| 0 <= i < list.len() ==> (#[trigger] list[i]).id < next,
        t.id == next,
    ensures
        list.push(t).filter(|x: Toast| x.id != t.id) == list,
    decreases list.len(),
{
    reveal(Seq::filter);
    assert(list.push(t).drop_last() == list);
    lemma_filter_none_removed(list, next);
}

proof fn lemma_filter_none_removed(list: Seq<Toast>, id: u32)
    requires
        forall|i: int| 0 <= i < list.len() ==> (#[trigger] list[i]).id < id,
    ensures
        list.filter(|x: Toast| x.id != id) == list,
    decreases list.len(),
{
    reveal(Seq::filter);
    if list.len() > 0 {
        let pre = list.drop_last();
        assert forall|i: int| 0 <= i < pre.len() implies (#[trigger] pre[i]).id < id by {
            assert(pre[i] == list[i]);
        }
        lemma_filter_none_removed(pre, id);
        assert(list.last() == list[list.len() - 1]);
        assert(pre.push(list.last()) == list);
    }
}

} // verus!
