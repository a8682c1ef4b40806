//! A cache of allocated object ids, used to name new objects.
use vstd::prelude::*;
use std::collections::VecDeque;
use crate::ids::{ObjectId, wrapping_next, lemma_object_id_ext};

verus! {

broadcast use lemma_object_id_ext;

/// The number of ids from `b` up to, but not including, `e`, counting around the wrap.
pub open spec fn id_count(b: u32, e: u32) -> nat {
    ((e - b) % 0x1_0000_0000) as nat
}

/// `p` is one of the ids of the range that starts at `b` and ends before `e`.
pub open spec fn id_in_range(p: u32, b: u32, e: u32) -> bool {
    id_count(b, p) < id_count(b, e)
}

/// The ids left in whole ranges.
pub open spec fn ranges_count(rs: Seq<(ObjectId, ObjectId)>) -> nat
    decreases rs.len(),
{
    if rs.len() == 0 {
        0
    } else {
        ranges_count(rs.drop_last()) + id_count(rs.last().0@, rs.last().1@)
    }
}

/// The ranges of an id list and the last id it handed out from the front range.
pub ghost struct IdListView {
    pub ranges: Seq<(ObjectId, ObjectId)>,
    pub prev: Option<ObjectId>,
}

/// The number of ids that an id list still holds.
pub open spec fn remaining_ids(v: IdListView) -> nat {
    if v.ranges.len() == 0 {
        0
    } else {
        let front = match v.prev {
            None => id_count(v.ranges[0].0@, v.ranges[0].1@),
            Some(p) => id_count(wrapping_next(p@, 1), v.ranges[0].1@),
        };
        front + ranges_count(v.ranges.subrange(1, v.ranges.len() as int))
    }
}

/// The id `i` places after `b`, counting around the wrap.
pub open spec fn id_at(b: u32, i: int) -> u32 {
    ((b + i) % 0x1_0000_0000) as u32
}

/// The ids of the range that starts at `b` and ends before `e`, in the order they are
/// handed out.
pub open spec fn range_ids(b: u32, e: u32) -> Seq<u32> {
    Seq::new(id_count(b, e), |i: int| id_at(b, i))
}

/// The ids of whole ranges, range after range, in the order they are handed out.
pub open spec fn ranges_ids(rs: Seq<(ObjectId, ObjectId)>) -> Seq<u32>
    decreases rs.len(),
{
    if rs.len() == 0 {
        seq![]
    } else {
        range_ids(rs[0].0@, rs[0].1@) + ranges_ids(rs.drop_first())
    }
}

/// The ids that an id list will still hand out, in order: the rest of the front range
/// after the last id handed out, then the ranges behind it, first in, first out.
pub open spec fn pending_ids(v: IdListView) -> Seq<u32> {
    if v.ranges.len() == 0 {
        seq![]
    } else {
        let front = match v.prev {
            None => range_ids(v.ranges[0].0@, v.ranges[0].1@),
            Some(p) => range_ids(wrapping_next(p@, 1), v.ranges[0].1@),
        };
        front + ranges_ids(v.ranges.drop_first())
    }
}

/// An id list whose last handed-out id, if any, lies in its front range.
pub open spec fn id_list_wf(v: IdListView) -> bool {
    v.prev matches Some(p) ==> v.ranges.len() > 0 && id_in_range(
        p@,
        v.ranges[0].0@,
        v.ranges[0].1@,
    )
}

/// The ranges left once the empty ranges at the front are dropped.
pub open spec fn drop_empty(rs: Seq<(ObjectId, ObjectId)>) -> Seq<(ObjectId, ObjectId)>
    decreases rs.len(),
{
    if rs.len() > 0 && rs[0].0@ == rs[0].1@ {
        drop_empty(rs.drop_first())
    } else {
        rs
    }
}

/// The first id of the front range, if there is a range.
pub open spec fn first_id(rs: Seq<(ObjectId, ObjectId)>) -> Option<ObjectId> {
    if rs.len() == 0 {
        None
    } else {
        Some(rs[0].0)
    }
}

/// How one call of `next_id` changes an id list `old` into `new` and what it returns.
///
/// The id after the last one handed out comes next, unless it ends the front range: then
/// that range is dropped. When a range is started, the empty ranges before it are dropped
/// and its first id comes next.
pub open spec fn next_id_post(old: IdListView, new: IdListView, res: Option<ObjectId>) -> bool {
    &&& new.prev == res
    &&& match old.prev {
        Some(p) => if old.ranges.len() == 0 {
            res is None && new.ranges == old.ranges
        } else if wrapping_next(p@, 1) == old.ranges[0].1@ {
            &&& new.ranges == drop_empty(old.ranges.drop_first())
            &&& res == first_id(new.ranges)
        } else {
            &&& new.ranges == old.ranges
            &&& res matches Some(id) && id@ == wrapping_next(p@, 1)
        },
        None => {
            &&& new.ranges == drop_empty(old.ranges)
            &&& res == first_id(new.ranges)
        },
    }
}

/// A data type that caches allocated object ids to use to create new objects.
pub struct IdList {
    /// The ranges of available ids, each from its first id up to, not including, its last.
    ids: VecDeque<(ObjectId, ObjectId)>,
    /// The last id handed out, which lies in the front range, if any.
    prev_id: Option<ObjectId>,
}

impl View for IdList {
    type V = IdListView;

    closed spec fn view(&self) -> IdListView {
        IdListView { ranges: self.ids@, prev: self.prev_id }
    }
}

impl Default for IdList {
    fn default() -> (res: Self)
        ensures
            res@.ranges.len() == 0,
            res@.prev is None,
    {
        IdList::new()
    }
}

impl IdList {
    /// Creates a new empty `IdList`.
    pub fn new() -> (res: Self)
        ensures
            res@.ranges.len() == 0,
            res@.prev is None,
    {
        IdList { ids: VecDeque::new(), prev_id: None }
    }

    /// Drops the empty ranges at the front.
    fn drop_empty_front(&mut self)
        ensures
            final(self)@.ranges == drop_empty(old(self)@.ranges),
            final(self)@.prev == old(self)@.prev,
    {
        while self.ids.len() > 0 && self.ids[0].0 == self.ids[0].1
            invariant
                drop_empty(self@.ranges) == drop_empty(old(self)@.ranges),
                self@.prev == old(self)@.prev,
            decreases self.ids@.len(),
        {
            let ghost before = self.ids@;
            let _ = self.ids.pop_front();
            assert(self.ids@ =~= before.drop_first());
        }
    }

    /// Gets the next available id and consumes it; returns `None` if there are no more ids.
    ///
    /// After handing out the id before the end of the front range, that range is dropped;
    /// empty ranges are skipped and the next range's first id is handed out.
    pub fn next_id(&mut self) -> (res: Option<ObjectId>)
        ensures
            next_id_post(old(self)@, final(self)@, res),
    {
        let mut next_id: Option<ObjectId> = None;
        match self.prev_id {
            Some(prev_id) => {
                if self.ids.len() > 0 {
                    let end = self.ids[0].1;
                    if prev_id.next() == end {
                        let _ = self.ids.pop_front();
                        assert(self.ids@ =~= old(self)@.ranges.drop_first());
                        self.drop_empty_front();
                        if self.ids.len() > 0 {
                            next_id = Some(self.ids[0].0);
                        }
                    } else {
                        next_id = Some(prev_id.next());
                    }
                }
            },
            None => {
                self.drop_empty_front();
                if self.ids.len() > 0 {
                    next_id = Some(self.ids[0].0);
                }
            },
        }
        self.prev_id = next_id;
        next_id
    }

    /// Adds a range of allocated ids to the list.
    pub fn add_ids(&mut self, range: (ObjectId, ObjectId))
        ensures
            final(self)@.ranges == old(self)@.ranges.push(range),
            final(self)@.prev == old(self)@.prev,
    {
        self.ids.push_back(range);
    }

    /// Computes the number of remaining ids in the list.
    #[verifier::rlimit(40)]
    pub fn remaining(&self) -> (res: usize)
        requires
            remaining_ids(self@) <= usize::MAX,
        ensures
            res == remaining_ids(self@),
    {
        let n = self.ids.len();
        if n == 0 {
            return 0;
        }
        let (begin, end) = self.ids[0];
        let begin_size: usize = match self.prev_id {
            None => end.as_underlying_type().wrapping_sub(begin.as_underlying_type()) as usize,
            Some(prev) => end.as_underlying_type().wrapping_sub(
                prev.as_underlying_type().wrapping_add(1),
            ) as usize,
        };
        let ghost rest = self.ids@.subrange(1, n as int);
        proof {
            lemma_ranges_count_prefix(rest, (n - 1) as nat);
        }
        let mut rest_size: usize = 0;
        let mut i: usize = 1;
        while i < n
            invariant
                1 <= i <= n,
                n == self.ids@.len(),
                rest == self.ids@.subrange(1, n as int),
                begin_size + ranges_count(rest) <= usize::MAX,
                rest_size == ranges_count(rest.subrange(0, i - 1)),
                forall|k: nat| k <= rest.len() ==> #[trigger] ranges_count(rest.subrange(0, k as int)) <= ranges_count(rest),
            decreases n - i,
        {
            let (b, e) = self.ids[i];
            let c = e.as_underlying_type().wrapping_sub(b.as_underlying_type()) as usize;
            assert(rest.subrange(0, i as int).drop_last() =~= rest.subrange(0, i - 1));
            assert(ranges_count(rest.subrange(0, i as int)) <= ranges_count(rest));
            rest_size = rest_size + c;
            i = i + 1;
        }
        assert(rest.subrange(0, n - 1) =~= rest);
        begin_size + rest_size
    }
}

/// The count of a prefix of ranges is at most the count of all of them.
proof fn lemma_ranges_count_prefix(rs: Seq<(ObjectId, ObjectId)>, n: nat)
    requires
        n == rs.len(),
    ensures
        forall|k: nat| k <= rs.len() ==> #[trigger] ranges_count(rs.subrange(0, k as int)) <= ranges_count(rs),
    decreases n,
{
    if n > 0 {
        lemma_ranges_count_prefix(rs.drop_last(), (n - 1) as nat);
        assert forall|k: nat| k <= rs.len() implies #[trigger] ranges_count(rs.subrange(0, k as int))
            <= ranges_count(rs) by {
            if k < rs.len() {
                assert(rs.subrange(0, k as int) =~= rs.drop_last().subrange(0, k as int));
            } else {
                assert(rs.subrange(0, k as int) =~= rs);
            }
        }
    }
}

/// Euclidean remainder by 2^32 of a difference of two 32-bit values.
proof fn lemma_mod_small(x: int)
    requires
        -0x1_0000_0000 < x < 0x1_0000_0000,
    ensures
        x % 0x1_0000_0000 == if x < 0 {
            x + 0x1_0000_0000
        } else {
            x
        },
{
}

/// Facts on counting ids around the wrap.
proof fn lemma_id_count(b: u32, p: u32, e: u32)
    ensures
        id_count(b, e) == 0 <==> b == e,
        id_count(b, e) < 0x1_0000_0000,
        id_count(p, e) >= 1 ==> id_count(wrapping_next(p as u32, 1), e) == id_count(p, e) - 1,
        id_count(b, p) + 1 < 0x1_0000_0000 ==> id_count(b, wrapping_next(p as u32, 1)) == id_count(
            b,
            p,
        ) + 1,
        id_count(b, p) <= id_count(b, e) ==> id_count(p, e) == id_count(b, e) - id_count(b, p),
{
    lemma_mod_small(e - b);
    lemma_mod_small(e - p);
    lemma_mod_small(p - b);
    let q = wrapping_next(p as u32, 1);
    assert(q == if p + 1 < 0x1_0000_0000 {
        p + 1
    } else {
        0
    }) by {
        lemma_mod_small(p + 1 - 0x1_0000_0000);
        if p + 1 < 0x1_0000_0000 {
            assert((p + 1) % 0x1_0000_0000 == p + 1);
        } else {
            assert((p + 1) % 0x1_0000_0000 == 0);
        }
    }
    lemma_mod_small(e - q);
    lemma_mod_small(q - b);
}

/// An id list that `new` returns is well formed.
pub proof fn lemma_new_wf(v: IdListView)
    requires
        v.ranges.len() == 0,
        v.prev is None,
    ensures
        id_list_wf(v),
        remaining_ids(v) == 0,
{
}

/// Adding a range keeps an id list well formed and adds the range's ids to the remaining
/// count.
pub proof fn lemma_add_ids_wf(old: IdListView, new: IdListView, range: (ObjectId, ObjectId))
    requires
        id_list_wf(old),
        new.ranges == old.ranges.push(range),
        new.prev == old.prev,
    ensures
        id_list_wf(new),
        remaining_ids(new) == remaining_ids(old) + id_count(range.0@, range.1@),
{
    if old.ranges.len() == 0 {
        assert(new.ranges.subrange(1, new.ranges.len() as int) =~= Seq::<(ObjectId, ObjectId)>::empty());
        assert(old.prev is None);
    } else {
        assert(new.ranges[0] == old.ranges[0]);
        assert(new.ranges.subrange(1, new.ranges.len() as int).drop_last() =~= old.ranges.subrange(
            1,
            old.ranges.len() as int,
        ));
    }
}

/// The count of ranges without the first is the count of all less the first's count.
proof fn lemma_ranges_count_drop_first(rs: Seq<(ObjectId, ObjectId)>)
    requires
        rs.len() > 0,
    ensures
        ranges_count(rs) == id_count(rs[0].0@, rs[0].1@) + ranges_count(rs.drop_first()),
    decreases rs.len(),
{
    if rs.len() > 1 {
        lemma_ranges_count_drop_first(rs.drop_last());
        assert(rs.drop_last().drop_first() =~= rs.drop_first().drop_last());
        assert(rs.drop_first().last() == rs.last());
        assert(rs.drop_last()[0] == rs[0]);
        assert(ranges_count(rs.drop_first()) == ranges_count(rs.drop_first().drop_last()) + id_count(
            rs.last().0@,
            rs.last().1@,
        ));
    } else {
        assert(rs.drop_first() =~= Seq::<(ObjectId, ObjectId)>::empty());
        assert(ranges_count(rs.drop_last()) == 0);
        assert(ranges_count(rs.drop_first()) == 0);
        assert(rs.last() == rs[0]);
    }
}

/// Dropping the empty ranges at the front keeps the count of ids, and leaves a non-empty
/// front range if any range is left.
proof fn lemma_drop_empty(rs: Seq<(ObjectId, ObjectId)>)
    ensures
        ranges_count(drop_empty(rs)) == ranges_count(rs),
        drop_empty(rs).len() > 0 ==> drop_empty(rs)[0].0@ != drop_empty(rs)[0].1@,
    decreases rs.len(),
{
    if rs.len() > 0 && rs[0].0@ == rs[0].1@ {
        lemma_drop_empty(rs.drop_first());
        lemma_ranges_count_drop_first(rs);
        lemma_id_count(rs[0].0@, rs[0].0@, rs[0].1@);
    }
}

/// A fresh start on ranges `rs`: the empty ones at the front are dropped and the first id
/// of the next is handed out, if there is one, leaving one id fewer.
proof fn lemma_fresh_start(rs: Seq<(ObjectId, ObjectId)>, new: IdListView, res: Option<ObjectId>)
    requires
        new.ranges == drop_empty(rs),
        res == first_id(new.ranges),
        new.prev == res,
    ensures
        id_list_wf(new),
        res is None <==> ranges_count(rs) == 0,
        res is Some ==> remaining_ids(new) + 1 == ranges_count(rs),
        res matches Some(id) ==> id_in_range(id@, new.ranges[0].0@, new.ranges[0].1@),
{
    lemma_drop_empty(rs);
    let d = new.ranges;
    if d.len() == 0 {
        assert(ranges_count(d) == 0);
    } else {
        let b = d[0].0@;
        let e = d[0].1@;
        lemma_id_count(b, b, e);
        assert(id_count(b, b) == 0);
        lemma_ranges_count_drop_first(d);
        assert(d.subrange(1, d.len() as int) =~= d.drop_first());
    }
}

/// Each call of `next_id` on a well-formed id list keeps it well formed, returns an id
/// exactly when ids remain, and then leaves one id fewer; the id returned lies in the new
/// front range.
pub proof fn lemma_next_id_counts(old: IdListView, new: IdListView, res: Option<ObjectId>)
    requires
        id_list_wf(old),
        next_id_post(old, new, res),
    ensures
        id_list_wf(new),
        res is None <==> remaining_ids(old) == 0,
        res is Some ==> remaining_ids(new) + 1 == remaining_ids(old),
        res matches Some(id) ==> id_in_range(id@, new.ranges[0].0@, new.ranges[0].1@),
{
    if old.ranges.len() == 0 {
        return;
    }
    let b0 = old.ranges[0].0@;
    let e0 = old.ranges[0].1@;
    let rest = old.ranges.subrange(1, old.ranges.len() as int);
    assert(rest =~= old.ranges.drop_first());
    match old.prev {
        None => {
            lemma_ranges_count_drop_first(old.ranges);
            lemma_fresh_start(old.ranges, new, res);
        },
        Some(p) => {
            lemma_id_count(b0, p@, e0);
            let q = wrapping_next(p@, 1);
            if q == e0 {
                assert(id_count(q, e0) == 0) by {
                    lemma_id_count(q, q, q);
                }
                lemma_fresh_start(rest, new, res);
            } else {
                lemma_id_count(q, q, e0);
                lemma_id_count(b0, q, e0);
            }
        },
    }
}

/// The first id of a non-empty range is its start, and the ids after it are the range
/// that starts one later.
proof fn lemma_range_ids_step(b: u32, e: u32)
    requires
        b != e,
    ensures
        range_ids(b, e).len() > 0,
        range_ids(b, e)[0] == b,
        range_ids(b, e).drop_first() == range_ids(wrapping_next(b, 1), e),
{
    lemma_id_count(b, b, e);
    let q = wrapping_next(b, 1);
    lemma_mod_small(b + 1 - 0x1_0000_0000);
    assert(range_ids(b, e).drop_first() =~= range_ids(q, e)) by {
        assert forall|i: int| 0 <= i < id_count(q, e) implies id_at(q, i) == id_at(b, i + 1) by {
            assert(0 <= i < 0x1_0000_0000);
            if b + 1 < 0x1_0000_0000 {
                assert(q == b + 1);
            } else {
                assert(q == 0);
                assert((b + 1 + i) % 0x1_0000_0000 == i);
            }
        }
    }
}

/// An empty range hands out no ids.
proof fn lemma_range_ids_empty(b: u32)
    ensures
        range_ids(b, b) == Seq::<u32>::empty(),
{
    lemma_id_count(b, b, b);
    assert(range_ids(b, b) =~= Seq::<u32>::empty());
}

/// Empty ranges at the front hand out no ids.
proof fn lemma_ranges_ids_drop_empty(rs: Seq<(ObjectId, ObjectId)>)
    ensures
        ranges_ids(drop_empty(rs)) == ranges_ids(rs),
    decreases rs.len(),
{
    if rs.len() > 0 && rs[0].0@ == rs[0].1@ {
        lemma_ranges_ids_drop_empty(rs.drop_first());
        lemma_range_ids_empty(rs[0].0@);
        assert(ranges_ids(rs) =~= ranges_ids(rs.drop_first()));
    }
}

/// A range added at the back hands out its ids after all the others.
proof fn lemma_ranges_ids_push(rs: Seq<(ObjectId, ObjectId)>, r: (ObjectId, ObjectId))
    ensures
        ranges_ids(rs.push(r)) == ranges_ids(rs) + range_ids(r.0@, r.1@),
    decreases rs.len(),
{
    if rs.len() == 0 {
        let none = Seq::<(ObjectId, ObjectId)>::empty();
        assert(rs.push(r).drop_first() =~= none);
        assert(ranges_ids(none) =~= Seq::<u32>::empty());
        assert(rs.push(r)[0] == r);
        assert(ranges_ids(rs) =~= Seq::<u32>::empty());
        assert(ranges_ids(rs.push(r)) =~= ranges_ids(rs) + range_ids(r.0@, r.1@));
    } else {
        lemma_ranges_ids_push(rs.drop_first(), r);
        assert(rs.push(r).drop_first() =~= rs.drop_first().push(r));
        assert(ranges_ids(rs.push(r)) =~= ranges_ids(rs) + range_ids(r.0@, r.1@));
    }
}

/// The ids of whole ranges number as many as their count.
proof fn lemma_ranges_ids_len(rs: Seq<(ObjectId, ObjectId)>)
    ensures
        ranges_ids(rs).len() == ranges_count(rs),
    decreases rs.len(),
{
    if rs.len() > 0 {
        lemma_ranges_ids_len(rs.drop_first());
        lemma_ranges_count_drop_first(rs);
    }
}

/// A fresh start on ranges `rs` hands out the first of their ids and leaves the rest.
proof fn lemma_fresh_start_ids(rs: Seq<(ObjectId, ObjectId)>, new: IdListView, res: Option<ObjectId>)
    requires
        new.ranges == drop_empty(rs),
        res == first_id(new.ranges),
        new.prev == res,
    ensures
        ranges_ids(rs).len() == 0 ==> res is None && pending_ids(new).len() == 0,
        ranges_ids(rs).len() > 0 ==> (res matches Some(id) && id@ == ranges_ids(rs)[0]),
        ranges_ids(rs).len() > 0 ==> pending_ids(new) == ranges_ids(rs).drop_first(),
{
    lemma_ranges_ids_drop_empty(rs);
    lemma_drop_empty(rs);
    let d = new.ranges;
    if d.len() > 0 {
        let b = d[0].0@;
        let e = d[0].1@;
        lemma_range_ids_step(b, e);
        assert(ranges_ids(d) == range_ids(b, e) + ranges_ids(d.drop_first()));
        assert(ranges_ids(d)[0] == b);
        assert(ranges_ids(d).drop_first() =~= range_ids(b, e).drop_first() + ranges_ids(
            d.drop_first(),
        ));
    }
}

/// Each call of `next_id` on a well-formed id list hands out the first of the ids still to
/// come, or `None` when none are left, and leaves the others in their order.
pub proof fn lemma_next_id_takes_first(old: IdListView, new: IdListView, res: Option<ObjectId>)
    requires
        id_list_wf(old),
        next_id_post(old, new, res),
    ensures
        id_list_wf(new),
        pending_ids(old).len() == 0 ==> res is None && pending_ids(new).len() == 0,
        pending_ids(old).len() > 0 ==> (res matches Some(id) && id@ == pending_ids(old)[0]),
        pending_ids(old).len() > 0 ==> pending_ids(new) == pending_ids(old).drop_first(),
{
    lemma_next_id_counts(old, new, res);
    if old.ranges.len() == 0 {
        return;
    }
    let e0 = old.ranges[0].1@;
    let rest = old.ranges.drop_first();
    match old.prev {
        None => {
            lemma_fresh_start_ids(old.ranges, new, res);
        },
        Some(p) => {
            let q = wrapping_next(p@, 1);
            if q == e0 {
                lemma_range_ids_empty(q);
                assert(pending_ids(old) =~= ranges_ids(rest));
                lemma_fresh_start_ids(rest, new, res);
            } else {
                lemma_range_ids_step(q, e0);
                assert(pending_ids(old).drop_first() =~= range_ids(q, e0).drop_first()
                    + ranges_ids(rest));
            }
        },
    }
}

/// Adding a range puts its ids after all the ids still to come.
pub proof fn lemma_add_ids_last(old: IdListView, new: IdListView, range: (ObjectId, ObjectId))
    requires
        id_list_wf(old),
        new.ranges == old.ranges.push(range),
        new.prev == old.prev,
    ensures
        pending_ids(new) == pending_ids(old) + range_ids(range.0@, range.1@),
{
    lemma_ranges_ids_push(old.ranges.drop_first(), range);
    if old.ranges.len() == 0 {
        assert(new.ranges.drop_first() =~= Seq::<(ObjectId, ObjectId)>::empty());
        assert(pending_ids(new) =~= range_ids(range.0@, range.1@));
    } else {
        assert(new.ranges.drop_first() =~= old.ranges.drop_first().push(range));
        assert(pending_ids(new) =~= pending_ids(old) + range_ids(range.0@, range.1@));
    }
}

/// The ids still to come number exactly the remaining count.
pub proof fn lemma_pending_len(v: IdListView)
    ensures
        pending_ids(v).len() == remaining_ids(v),
{
    if v.ranges.len() > 0 {
        lemma_ranges_ids_len(v.ranges.drop_first());
        assert(v.ranges.subrange(1, v.ranges.len() as int) =~= v.ranges.drop_first());
    }
}

/// Repeated calls of `next_id` on a well-formed id list hand out the ids still to come in
/// order, first in, first out, and `None` once they are used up: call `i` of a run that
/// goes through the states `vs` and returns `rs` gives the `i`-th id still to come at the
/// start.
pub proof fn lemma_next_id_run(vs: Seq<IdListView>, rs: Seq<Option<ObjectId>>)
    requires
        vs.len() == rs.len() + 1,
        id_list_wf(vs[0]),
        forall|i: int| 0 <= i < rs.len() ==> next_id_post(#[trigger] vs[i], vs[i + 1], rs[i]),
    ensures
        id_list_wf(vs.last()),
        forall|i: int|
            0 <= i < rs.len() && i < pending_ids(vs[0]).len() ==> (#[trigger] rs[i] matches Some(
                id,
            ) && id@ == pending_ids(vs[0])[i]),
        forall|i: int| 0 <= i < rs.len() && i >= pending_ids(vs[0]).len() ==> #[trigger] rs[i] is None,
        rs.len() <= pending_ids(vs[0]).len() ==> pending_ids(vs.last()) == pending_ids(
            vs[0],
        ).skip(rs.len() as int),
        rs.len() >= pending_ids(vs[0]).len() ==> pending_ids(vs.last()).len() == 0,
    decreases rs.len(),
{
    if rs.len() > 0 {
        let n = rs.len() - 1;
        let vs0 = vs.drop_last();
        let rs0 = rs.drop_last();
        assert forall|i: int| 0 <= i < rs0.len() implies next_id_post(
            #[trigger] vs0[i],
            vs0[i + 1],
            rs0[i],
        ) by {
            assert(vs0[i] == vs[i] && vs0[i + 1] == vs[i + 1] && rs0[i] == rs[i]);
            assert(next_id_post(vs[i], vs[i + 1], rs[i]));
        }
        lemma_next_id_run(vs0, rs0);
        assert(vs0.last() == vs[n]);
        assert(next_id_post(vs[n], vs[n + 1], rs[n]));
        lemma_next_id_takes_first(vs[n], vs[n + 1], rs[n]);
        let all = pending_ids(vs[0]);
        assert forall|i: int| 0 <= i < rs.len() && i < all.len() implies (#[trigger] rs[i] matches Some(
            id,
        ) && id@ == all[i]) by {
            if i < n {
                assert(rs0[i] == rs[i]);
            } else {
                assert(pending_ids(vs[n]) == all.skip(n));
                assert(all.skip(n)[0] == all[i]);
            }
        }
        assert forall|i: int| 0 <= i < rs.len() && i >= all.len() implies #[trigger] rs[i] is None by {
            if i < n {
                assert(rs0[i] == rs[i]);
            }
        }
        if rs.len() <= all.len() {
            assert(pending_ids(vs[n]) == all.skip(n));
            assert(all.skip(n).drop_first() =~= all.skip(rs.len() as int));
        }
    }
}

} // verus!
