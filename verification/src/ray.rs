//! Bookkeeping for traversing a batch of rays through a scene: lanes of ray
//! indices, and a stack of tasks, each naming the tail of one lane.
use vstd::prelude::*;

verus! {

/// A lane of ray indices.  The indices below `end_len` belong to tasks;
/// those from `end_len` on are waiting to be turned into a task.
pub struct Lane {
    pub idxs: Vec<u16>,
    pub end_len: usize,
}

/// A task: the ray indices of lane `lane` from `start_idx` up to the lane's
/// `end_len`.
pub struct RayTask {
    pub lane: usize,
    pub start_idx: usize,
}

/// A stack of ray-traversal tasks over lanes of ray indices.
pub struct RayStack {
    lanes: Vec<Lane>,
    tasks: Vec<RayTask>,
}

/// The ray indices of each lane.
pub open spec fn lane_idxs(lanes: Seq<Lane>) -> Seq<Seq<u16>> {
    Seq::new(lanes.len(), |i: int| lanes[i].idxs@)
}

/// The `end_len` of each lane.
pub open spec fn lane_ends(lanes: Seq<Lane>) -> Seq<int> {
    Seq::new(lanes.len(), |i: int| lanes[i].end_len as int)
}

/// Each task as (lane, start index).
pub open spec fn task_pairs(tasks: Seq<RayTask>) -> Seq<(int, int)> {
    Seq::new(tasks.len(), |i: int| (tasks[i].lane as int, tasks[i].start_idx as int))
}

/// The lanes and tasks of a stack that are consistent: each lane's end is
/// within it, every task lies on an existing lane below that lane's end,
/// and the tasks on one lane start in order from the bottom of the stack.
pub open spec fn stack_wf(idxs: Seq<Seq<u16>>, ends: Seq<int>, tasks: Seq<(int, int)>) -> bool {
    &&& idxs.len() == ends.len()
    &&& forall|l: int| 0 <= l < ends.len() ==> 0 <= #[trigger] ends[l] <= idxs[l].len()
    &&& forall|t: int|
        0 <= t < tasks.len() ==> 0 <= (#[trigger] tasks[t]).0 < ends.len() && 0 <= tasks[t].1
            <= ends[tasks[t].0]
    &&& forall|t: int, u: int|
        0 <= t < u < tasks.len() && (#[trigger] tasks[t]).0 == (#[trigger] tasks[u]).0
            ==> tasks[t].1 <= tasks[u].1
}

/// `lanes` extended with empty lanes up to `count` lanes.
pub open spec fn grow_idxs(idxs: Seq<Seq<u16>>, count: int) -> Seq<Seq<u16>> {
    if idxs.len() >= count {
        idxs
    } else {
        idxs + Seq::new((count - idxs.len()) as nat, |i: int| Seq::<u16>::empty())
    }
}

/// `ends` extended with zero ends up to `count` lanes.
pub open spec fn grow_ends(ends: Seq<int>, count: int) -> Seq<int> {
    if ends.len() >= count {
        ends
    } else {
        ends + Seq::new((count - ends.len()) as nat, |i: int| 0int)
    }
}

/// The tasks after turning the waiting indices of lane `l` into a task, and
/// the lane ends after it.
pub open spec fn lane_to_task(
    idxs: Seq<Seq<u16>>,
    ends: Seq<int>,
    tasks: Seq<(int, int)>,
    l: int,
) -> (Seq<int>, Seq<(int, int)>) {
    if ends[l] < idxs[l].len() {
        (ends.update(l, idxs[l].len() as int), tasks.push((l, ends[l])))
    } else {
        (ends, tasks)
    }
}

/// The lane ends and tasks after turning lanes `ls` into tasks, in order.
pub open spec fn lanes_to_tasks(
    idxs: Seq<Seq<u16>>,
    ends: Seq<int>,
    tasks: Seq<(int, int)>,
    ls: Seq<usize>,
) -> (Seq<int>, Seq<(int, int)>)
    decreases ls.len(),
{
    if ls.len() == 0 {
        (ends, tasks)
    } else {
        let prev = lanes_to_tasks(idxs, ends, tasks, ls.drop_last());
        lane_to_task(idxs, prev.0, prev.1, ls.last() as int)
    }
}

/// The lanes after adding ray `ray` to the lanes listed in `out`.
pub open spec fn add_to_lanes(idxs: Seq<Seq<u16>>, ray: u16, out: ([u8; 8], usize), k: int) -> Seq<
    Seq<u16>,
>
    decreases k,
{
    if k <= 0 {
        idxs
    } else {
        let prev = add_to_lanes(idxs, ray, out, k - 1);
        let l = out.0@[k - 1] as int;
        prev.update(l, prev[l].push(ray))
    }
}

/// The lanes after adding each ray of `rays` to the lanes that the matching
/// entry of `outs` lists.
pub open spec fn add_all_to_lanes(
    idxs: Seq<Seq<u16>>,
    rays: Seq<u16>,
    outs: Seq<([u8; 8], usize)>,
) -> Seq<Seq<u16>>
    decreases rays.len(),
{
    if rays.len() == 0 || outs.len() < rays.len() {
        idxs
    } else {
        let prev = add_all_to_lanes(idxs, rays.drop_last(), outs);
        let k = rays.len() - 1;
        add_to_lanes(prev, rays[k], outs[k], outs[k].1 as int)
    }
}

/// The lane list `out` returned for one ray is usable: at most eight
/// entries, each an existing lane, naming the task's own lane at most once.
pub open spec fn lane_list_ok(out: ([u8; 8], usize), lane_count: int, own: int) -> bool {
    &&& out.1 <= 8
    &&& forall|j: int| 0 <= j < out.1 ==> (#[trigger] out.0@[j] as int) < lane_count
    &&& forall|j: int, m: int|
        0 <= j < m < out.1 && (#[trigger] out.0@[j]) as int == own ==> (#[trigger] out.0@[m])
            as int != own
}

fn lane_push(lanes: &mut Vec<Lane>, l: usize, ray: u16)
    requires
        l < old(lanes)@.len(),
    ensures
        final(lanes)@.len() == old(lanes)@.len(),
        lane_idxs(final(lanes)@) == lane_idxs(old(lanes)@).update(
            l as int,
            lane_idxs(old(lanes)@)[l as int].push(ray),
        ),
        lane_ends(final(lanes)@) == lane_ends(old(lanes)@),
{
    let mut lane = lanes.remove(l);
    lane.idxs.push(ray);
    lanes.insert(l, lane);
    proof {
        assert(lane_idxs(lanes@) =~= lane_idxs(old(lanes)@).update(
            l as int,
            lane_idxs(old(lanes)@)[l as int].push(ray),
        ));
        assert(lane_ends(lanes@) =~= lane_ends(old(lanes)@));
    }
}

fn lane_set(lanes: &mut Vec<Lane>, l: usize, pos: usize, ray: u16)
    requires
        l < old(lanes)@.len(),
        pos < old(lanes)@[l as int].idxs@.len(),
    ensures
        final(lanes)@.len() == old(lanes)@.len(),
        lane_idxs(final(lanes)@) == lane_idxs(old(lanes)@).update(
            l as int,
            lane_idxs(old(lanes)@)[l as int].update(pos as int, ray),
        ),
        lane_ends(final(lanes)@) == lane_ends(old(lanes)@),
{
    let mut lane = lanes.remove(l);
    lane.idxs.set(pos, ray);
    lanes.insert(l, lane);
    proof {
        assert(lane_idxs(lanes@) =~= lane_idxs(old(lanes)@).update(
            l as int,
            lane_idxs(old(lanes)@)[l as int].update(pos as int, ray),
        ));
        assert(lane_ends(lanes@) =~= lane_ends(old(lanes)@));
    }
}

fn lane_finish(lanes: &mut Vec<Lane>, l: usize, len: usize, end: usize)
    requires
        l < old(lanes)@.len(),
        len <= old(lanes)@[l as int].idxs@.len(),
    ensures
        final(lanes)@.len() == old(lanes)@.len(),
        lane_idxs(final(lanes)@) == lane_idxs(old(lanes)@).update(
            l as int,
            lane_idxs(old(lanes)@)[l as int].take(len as int),
        ),
        lane_ends(final(lanes)@) == lane_ends(old(lanes)@).update(l as int, end as int),
{
    let mut lane = lanes.remove(l);
    lane.idxs.truncate(len);
    lane.end_len = end;
    lanes.insert(l, lane);
    proof {
        assert(lane_idxs(lanes@) =~= lane_idxs(old(lanes)@).update(
            l as int,
            lane_idxs(old(lanes)@)[l as int].take(len as int),
        ));
        assert(lane_ends(lanes@) =~= lane_ends(old(lanes)@).update(l as int, end as int));
    }
}

proof fn lemma_add_all_prefix(
    idxs: Seq<Seq<u16>>,
    rays: Seq<u16>,
    outs: Seq<([u8; 8], usize)>,
    outs2: Seq<([u8; 8], usize)>,
)
    requires
        outs.len() >= rays.len(),
        outs2.len() >= rays.len(),
        forall|k: int| 0 <= k < rays.len() ==> outs[k] == outs2[k],
    ensures
        add_all_to_lanes(idxs, rays, outs) == add_all_to_lanes(idxs, rays, outs2),
    decreases rays.len(),
{
    if rays.len() > 0 {
        lemma_add_all_prefix(idxs, rays.drop_last(), outs, outs2);
    }
}

proof fn lemma_add_to_lanes_len(idxs: Seq<Seq<u16>>, ray: u16, out: ([u8; 8], usize), k: int)
    requires
        0 <= k <= 8,
        forall|j: int| 0 <= j < k ==> (#[trigger] out.0@[j] as int) < idxs.len(),
    ensures
        add_to_lanes(idxs, ray, out, k).len() == idxs.len(),
    decreases k,
{
    if k > 0 {
        lemma_add_to_lanes_len(idxs, ray, out, k - 1);
    }
}

proof fn lemma_add_to_lanes_grows(idxs: Seq<Seq<u16>>, ray: u16, out: ([u8; 8], usize), k: int, l: int)
    requires
        0 <= l < idxs.len(),
        0 <= k <= 8,
        forall|j: int| 0 <= j < k ==> (#[trigger] out.0@[j] as int) < idxs.len(),
    ensures
        add_to_lanes(idxs, ray, out, k).len() == idxs.len(),
        add_to_lanes(idxs, ray, out, k)[l].len() >= idxs[l].len(),
    decreases k,
{
    if k > 0 {
        lemma_add_to_lanes_grows(idxs, ray, out, k - 1, l);
    }
}

proof fn lemma_add_all_len_grows(
    idxs: Seq<Seq<u16>>,
    rays: Seq<u16>,
    outs: Seq<([u8; 8], usize)>,
    l: int,
)
    requires
        0 <= l < idxs.len(),
        forall|k: int|
            0 <= k < rays.len() && k < outs.len() ==> (#[trigger] outs[k]).1 <= 8 && forall|j: int|
                0 <= j < outs[k].1 ==> (#[trigger] outs[k].0@[j] as int) < idxs.len(),
    ensures
        add_all_to_lanes(idxs, rays, outs).len() == idxs.len(),
        add_all_to_lanes(idxs, rays, outs)[l].len() >= idxs[l].len(),
    decreases rays.len(),
{
    if rays.len() > 0 && outs.len() >= rays.len() {
        lemma_add_all_len_grows(idxs, rays.drop_last(), outs, l);
        let prev = add_all_to_lanes(idxs, rays.drop_last(), outs);
        let k = rays.len() - 1;
        lemma_add_to_lanes_grows(prev, rays[k], outs[k], outs[k].1 as int, l);
    }
}

impl RayStack {
    /// The ray indices of each lane.
    pub closed spec fn idxs(&self) -> Seq<Seq<u16>> {
        lane_idxs(self.lanes@)
    }

    /// The end of the task part of each lane.
    pub closed spec fn ends(&self) -> Seq<int> {
        lane_ends(self.lanes@)
    }

    /// The tasks, bottom of the stack first, as (lane, start index).
    pub closed spec fn tasks(&self) -> Seq<(int, int)> {
        task_pairs(self.tasks@)
    }

    /// The stack is consistent.
    pub open spec fn wf(&self) -> bool {
        stack_wf(self.idxs(), self.ends(), self.tasks())
    }

    /// An empty stack: no lanes, no tasks.
    pub fn new() -> (s: RayStack)
        ensures
            s.wf(),
            s.idxs() == Seq::<Seq<u16>>::empty(),
            s.tasks() == Seq::<(int, int)>::empty(),
    {
        let s = RayStack { lanes: Vec::new(), tasks: Vec::new() };
        proof {
            assert(s.idxs() =~= Seq::<Seq<u16>>::empty());
            assert(s.ends() =~= Seq::<int>::empty());
            assert(s.tasks() =~= Seq::<(int, int)>::empty());
        }
        s
    }

    /// Returns whether the stack has no tasks.
    pub fn is_empty(&self) -> (r: bool)
        ensures
            r == (self.tasks().len() == 0),
    {
        self.tasks.len() == 0
    }

    /// Makes sure there are at least `count` lanes, adding empty ones.
    pub fn ensure_lane_count(&mut self, count: usize)
        requires
            old(self).wf(),
        ensures
            final(self).wf(),
            final(self).idxs() == grow_idxs(old(self).idxs(), count as int),
            final(self).ends() == grow_ends(old(self).ends(), count as int),
            final(self).tasks() == old(self).tasks(),
    {
        let ghost i0 = self.idxs();
        let ghost e0 = self.ends();
        while self.lanes.len() < count
            invariant
                self.tasks() == old(self).tasks(),
                i0 == old(self).idxs(),
                e0 == old(self).ends(),
                old(self).wf(),
                i0.len() <= self.idxs().len(),
                self.idxs().len() <= count || self.idxs().len() == i0.len(),
                self.idxs() == i0 + Seq::new(
                    (self.idxs().len() - i0.len()) as nat,
                    |i: int| Seq::<u16>::empty(),
                ),
                self.ends() == e0 + Seq::new(
                    (self.ends().len() - e0.len()) as nat,
                    |i: int| 0int,
                ),
                self.ends().len() == self.idxs().len(),
            decreases count - self.lanes@.len(),
        {
            let ghost before_i = self.idxs();
            let ghost before_e = self.ends();
            self.lanes.push(Lane { idxs: Vec::new(), end_len: 0 });
            proof {
                assert(self.idxs() =~= before_i.push(Seq::<u16>::empty()));
                assert(self.ends() =~= before_e.push(0int));
                assert(self.idxs() =~= i0 + Seq::new(
                    (self.idxs().len() - i0.len()) as nat,
                    |i: int| Seq::<u16>::empty(),
                ));
                assert(self.ends() =~= e0 + Seq::new(
                    (self.ends().len() - e0.len()) as nat,
                    |i: int| 0int,
                ));
            }
        }
        proof {
            if i0.len() >= count {
                assert(self.idxs() =~= i0);
                assert(self.ends() =~= e0);
            }
            let n = self.idxs();
            let e = self.ends();
            assert forall|l: int| 0 <= l < e.len() implies 0 <= #[trigger] e[l] <= n[l].len() by {
                if l >= e0.len() {
                    assert(e[l] == 0);
                } else {
                    assert(e[l] == e0[l] && n[l] == i0[l]);
                }
            }
            assert forall|t: int|
                0 <= t < self.tasks().len() implies 0 <= (#[trigger] self.tasks()[t]).0 < e.len()
                && 0 <= self.tasks()[t].1 <= e[self.tasks()[t].0] by {
                assert(e[self.tasks()[t].0] == e0[self.tasks()[t].0]);
            }
        }
    }

    /// The number of rays in the task on top of the stack.
    pub fn ray_count_in_next_task(&self) -> (n: usize)
        requires
            self.wf(),
            self.tasks().len() > 0,
        ensures
            n == self.ends()[self.tasks().last().0] - self.tasks().last().1,
    {
        let task = &self.tasks[self.tasks.len() - 1];
        proof {
            assert(self.tasks()[self.tasks().len() - 1] == (task.lane as int, task.start_idx as int));
        }
        let end = self.lanes[task.lane].end_len;
        proof {
            assert(self.ends()[task.lane as int] == end);
        }
        end - task.start_idx
    }

    /// The `i`th ray index of the task on top of the stack.
    pub fn next_task_ray_idx(&self, i: usize) -> (r: usize)
        requires
            self.wf(),
            self.tasks().len() > 0,
            self.tasks().last().1 + i < self.ends()[self.tasks().last().0],
        ensures
            r == self.idxs()[self.tasks().last().0][self.tasks().last().1 + i],
    {
        let task = &self.tasks[self.tasks.len() - 1];
        proof {
            assert(self.tasks()[self.tasks().len() - 1] == (task.lane as int, task.start_idx as int));
            assert(self.idxs()[task.lane as int] == self.lanes@[task.lane as int].idxs@);
            assert(self.ends()[task.lane as int] == self.lanes@[task.lane as int].end_len);
        }
        let j = i + task.start_idx;
        self.lanes[task.lane].idxs[j] as usize
    }

    /// Empties every lane and removes all tasks, keeping the lanes.
    pub fn clear(&mut self)
        requires
            old(self).wf(),
        ensures
            final(self).wf(),
            final(self).idxs().len() == old(self).idxs().len(),
            forall|l: int| 0 <= l < final(self).idxs().len() ==> (#[trigger] final(self).idxs()[l])
                == Seq::<u16>::empty() && final(self).ends()[l] == 0,
            final(self).tasks() == Seq::<(int, int)>::empty(),
    {
        let n = self.lanes.len();
        let mut i: usize = 0;
        proof {
            assert forall|l: int| 0 <= l < n implies (#[trigger] self.lanes@[l]).end_len
                <= self.lanes@[l].idxs@.len() by {
                assert(self.ends()[l] == self.lanes@[l].end_len);
                assert(self.idxs()[l] == self.lanes@[l].idxs@);
            }
        }
        while i < n
            invariant
                n == self.lanes@.len(),
                i <= n,
                forall|l: int| 0 <= l < i ==> (#[trigger] self.lanes@[l]).idxs@ == Seq::<
                    u16,
                >::empty() && self.lanes@[l].end_len == 0,
                forall|l: int| i <= l < n ==> (#[trigger] self.lanes@[l]).end_len <= self.lanes@[
                    l
                ].idxs@.len(),
            decreases n - i,
        {
            let mut lane = self.lanes.remove(i);
            lane.idxs.clear();
            lane.end_len = 0;
            self.lanes.insert(i, lane);
            i += 1;
        }
        self.tasks.clear();
        proof {
            assert(self.tasks() =~= Seq::<(int, int)>::empty());
        }
    }

    /// Pushes the ray index `ray_idx`, kept to 16 bits, onto the end of lane
    /// `lane`.
    pub fn push_ray_index(&mut self, ray_idx: usize, lane: usize)
        requires
            old(self).wf(),
            lane < old(self).idxs().len(),
        ensures
            final(self).wf(),
            final(self).idxs() == old(self).idxs().update(
                lane as int,
                old(self).idxs()[lane as int].push(ray_idx as u16),
            ),
            final(self).ends() == old(self).ends(),
            final(self).tasks() == old(self).tasks(),
    {
        let mut l = self.lanes.remove(lane);
        l.idxs.push(ray_idx as u16);
        self.lanes.insert(lane, l);
        proof {
            assert(self.idxs() =~= old(self).idxs().update(
                lane as int,
                old(self).idxs()[lane as int].push(ray_idx as u16),
            ));
            assert(self.ends() =~= old(self).ends());
        }
    }

    /// Pops the task on top of the stack and hands each of its ray indices,
    /// in order, to `handle_ray`, which returns a list of lanes (an array
    /// and the number of entries used) to add the ray index back into.  The
    /// task's own lane keeps only the indices below the task plus those
    /// added back to it; there are at least `needed_lanes` lanes afterwards.
    pub fn pop_do_next_task<F>(&mut self, needed_lanes: usize, handle_ray: F)
        where
            F: Fn(usize) -> ([u8; 8], usize),
        requires
            old(self).wf(),
            old(self).tasks().len() > 0,
            old(self).tasks().last().0 < 256,
            forall|r: usize| #[trigger] call_requires(handle_ray, (r,)),
            forall|r: usize, out: ([u8; 8], usize)|
                #[trigger] call_ensures(handle_ray, (r,), out) ==> lane_list_ok(
                    out,
                    grow_idxs(old(self).idxs(), needed_lanes as int).len() as int,
                    old(self).tasks().last().0,
                ),
        ensures
            final(self).wf(),
            final(self).tasks() == old(self).tasks().drop_last(),
            ({
                let own = old(self).tasks().last().0;
                let start = old(self).tasks().last().1;
                let grown = grow_idxs(old(self).idxs(), needed_lanes as int);
                let base = grown.update(own, grown[own].take(start));
                let rays = old(self).idxs()[own].subrange(start, old(self).ends()[own]);
                &&& final(self).ends() == grow_ends(old(self).ends(), needed_lanes as int).update(
                    own,
                    start,
                )
                &&& exists|outs: Seq<([u8; 8], usize)>|
                    {
                        &&& outs.len() == rays.len()
                        &&& forall|k: int|
                            0 <= k < rays.len() ==> call_ensures(
                                handle_ray,
                                (rays[k] as usize,),
                                #[trigger] outs[k],
                            )
                        &&& final(self).idxs() == add_all_to_lanes(base, rays, outs)
                    }
            }),
    {
        self.ensure_lane_count(needed_lanes);
        let ghost grown = self.idxs();
        let ghost grown_ends = self.ends();
        let ghost tasks0 = self.tasks();
        let task = self.tasks.pop().unwrap();
        let own = task.lane;
        let start = task.start_idx;
        proof {
            assert(tasks0.last() == (own as int, start as int));
            assert(self.tasks() =~= tasks0.drop_last());
            assert(self.idxs()[own as int] == self.lanes@[own as int].idxs@);
            assert(self.ends()[own as int] == self.lanes@[own as int].end_len);
        }
        let end = self.lanes[own].end_len;
        let ghost src = grown[own as int];
        let ghost rays = src.subrange(start as int, end as int);
        let ghost base = grown.update(own as int, src.take(start as int));
        let ghost mut outs: Seq<([u8; 8], usize)> = Seq::empty();
        let mut cap = start;
        let mut i = start;
        proof {
            assert(rays.take(0) =~= Seq::<u16>::empty());
        }
        while i < end
            invariant
                own < grown.len(),
                own < 256,
                self.tasks() == tasks0.drop_last(),
                stack_wf(grown, grown_ends, tasks0),
                tasks0.len() > 0,
                tasks0.last() == (own as int, start as int),
                start <= cap <= i <= end <= src.len(),
                end == grown_ends[own as int],
                rays == src.subrange(start as int, end as int),
                base == grown.update(own as int, src.take(start as int)),
                self.ends() == grown_ends,
                lane_idxs(self.lanes@) == self.idxs(),
                self.lanes@.len() == grown.len(),
                self.idxs().len() == grown.len(),
                self.idxs()[own as int].len() == src.len(),
                self.idxs()[own as int].subrange(i as int, src.len() as int) == src.subrange(
                    i as int,
                    src.len() as int,
                ),
                outs.len() == i - start,
                forall|k: int|
                    0 <= k < outs.len() ==> call_ensures(
                        handle_ray,
                        (rays[k] as usize,),
                        #[trigger] outs[k],
                    ),
                forall|r: usize| #[trigger] call_requires(handle_ray, (r,)),
                forall|r: usize, out: ([u8; 8], usize)|
                    #[trigger] call_ensures(handle_ray, (r,), out) ==> lane_list_ok(
                        out,
                        grown.len() as int,
                        own as int,
                    ),
                ({
                    let spec = add_all_to_lanes(base, rays.take(i - start), outs);
                    &&& spec.len() == grown.len()
                    &&& forall|l: int|
                        0 <= l < grown.len() && l != own ==> #[trigger] self.idxs()[l] == spec[l]
                    &&& self.idxs()[own as int].take(cap as int) == spec[own as int]
                }),
            decreases end - i,
        {
            proof {
                assert(self.idxs()[own as int].subrange(i as int, src.len() as int)[0]
                    == src.subrange(i as int, src.len() as int)[0]);
                assert(self.idxs()[own as int][i as int] == src[i as int]);
                assert(self.lanes@[own as int].idxs@ == self.idxs()[own as int]);
            }
            let ray = self.lanes[own].idxs[i];
            let (add_list, list_len) = handle_ray(ray as usize);
            let ghost out = (add_list, list_len);
            let ghost prev_spec = add_all_to_lanes(base, rays.take(i - start), outs);
            let ghost cap0 = cap;
            let ghost mut seen_own = false;
            let mut j: usize = 0;
            proof {
                assert(rays[i - start] == ray);
                assert(self.idxs()[own as int].subrange(i + 1, src.len() as int) =~= src.subrange(
                    i + 1,
                    src.len() as int,
                )) by {
                    assert forall|k: int| 0 <= k < src.len() - (i + 1) implies #[trigger] self.idxs()[
                        own as int
                    ].subrange(i + 1, src.len() as int)[k] == src.subrange(
                        i + 1,
                        src.len() as int,
                    )[k] by {
                        assert(self.idxs()[own as int].subrange(i as int, src.len() as int)[k + 1]
                            == src.subrange(i as int, src.len() as int)[k + 1]);
                    }
                }
            }
            while j < list_len
                invariant
                    own < grown.len(),
                    own < 256,
                    self.tasks() == tasks0.drop_last(),
                    list_len <= 8,
                    lane_list_ok(out, grown.len() as int, own as int),
                    out == (add_list, list_len),
                    j <= list_len,
                    start <= cap0 <= i < end <= src.len(),
                    cap == cap0 + (if seen_own { 1int } else { 0int }),
                    seen_own <==> exists|m: int| 0 <= m < j && add_list@[m] as int == own,
                    self.ends() == grown_ends,
                    lane_idxs(self.lanes@) == self.idxs(),
                    self.lanes@.len() == grown.len(),
                    self.idxs().len() == grown.len(),
                    self.idxs()[own as int].len() == src.len(),
                    self.idxs()[own as int].subrange(i + 1, src.len() as int) == src.subrange(
                        i + 1,
                        src.len() as int,
                    ),
                    ({
                        let spec = add_to_lanes(prev_spec, ray, out, j as int);
                        &&& spec.len() == grown.len()
                        &&& forall|l: int|
                            0 <= l < grown.len() && l != own ==> #[trigger] self.idxs()[l]
                                == spec[l]
                        &&& self.idxs()[own as int].take(cap as int) == spec[own as int]
                    }),
                decreases list_len - j,
            {
                let l = add_list[j];
                let ghost before = self.idxs();
                let ghost spec_j = add_to_lanes(prev_spec, ray, out, j as int);
                proof {
                    assert((add_list@[j as int] as int) < grown.len());
                }
                if l == own as u8 {
                    proof {
                        assert(!seen_own) by {
                            if seen_own {
                                let m = choose|m: int| 0 <= m < j && add_list@[m] as int == own;
                                assert(out.0@[m] as int == own);
                                assert(out.0@[j as int] as int == own);
                            }
                        }
                    }
                    lane_set(&mut self.lanes, own, cap, ray);
                    proof {
                        let now = self.idxs();
                        assert(now[own as int].take(cap + 1) =~= before[own as int].take(
                            cap as int,
                        ).push(ray));
                        assert(now[own as int].subrange(i + 1, src.len() as int) =~= before[
                            own as int
                        ].subrange(i + 1, src.len() as int));
                        seen_own = true;
                    }
                    cap += 1;
                } else {
                    lane_push(&mut self.lanes, l as usize, ray);
                    proof {
                        assert(l as int != own);
                    }
                }
                proof {
                    let spec_next = add_to_lanes(prev_spec, ray, out, j + 1);
                    assert(spec_next == spec_j.update(l as int, spec_j[l as int].push(ray)));
                    assert(seen_own <==> exists|m: int|
                        0 <= m < j + 1 && add_list@[m] as int == own) by {
                        if add_list@[j as int] as int == own {
                            assert(0 <= j < j + 1 && add_list@[j as int] as int == own);
                        } else {
                            if exists|m: int| 0 <= m < j + 1 && add_list@[m] as int == own {
                                let m = choose|m: int|
                                    0 <= m < j + 1 && add_list@[m] as int == own;
                                assert(m < j);
                            }
                        }
                    }
                }
                j += 1;
            }
            proof {
                let outs2 = outs.push(out);
                let r2 = rays.take(i + 1 - start);
                assert(r2.drop_last() =~= rays.take(i - start));
                assert(r2[i - start] == ray);
                lemma_add_all_prefix(base, rays.take(i - start), outs, outs2);
                assert(add_all_to_lanes(base, r2, outs2) == add_to_lanes(
                    prev_spec,
                    ray,
                    out,
                    list_len as int,
                ));
                assert(self.idxs()[own as int].subrange(i + 1, src.len() as int) == src.subrange(
                    i + 1,
                    src.len() as int,
                ));
                outs = outs2;
            }
            i += 1;
        }
        lane_finish(&mut self.lanes, own, cap, start);
        proof {
            let spec = add_all_to_lanes(base, rays.take(end - start), outs);
            assert(rays.take(end - start) =~= rays);
            let now = self.idxs();
            assert(now[own as int] =~= spec[own as int]);
            assert(now =~= spec);
            assert(self.ends() =~= grown_ends.update(own as int, start as int));
            assert(outs.len() == rays.len());
            // The stack stays consistent.
            let t = self.tasks();
            let e = self.ends();
            assert forall|l: int| 0 <= l < e.len() implies 0 <= #[trigger] e[l] <= now[l].len() by {
                if l != own {
                    lemma_add_all_len_grows(base, rays, outs, l);
                }
            }
            assert forall|a: int|
                0 <= a < t.len() implies 0 <= (#[trigger] t[a]).0 < e.len() && 0 <= t[a].1
                <= e[t[a].0] by {
                assert(t[a] == tasks0[a]);
                if t[a].0 == own {
                    assert(tasks0[a].0 == tasks0[tasks0.len() - 1].0);
                }
            }
        }
    }

    /// Takes the given lanes in order and turns the indices waiting at the
    /// end of each into a new task.
    pub fn push_lanes_to_tasks(&mut self, lane_idxs: &[usize])
        requires
            old(self).wf(),
            forall|k: int| 0 <= k < lane_idxs@.len() ==> #[trigger] lane_idxs@[k] < old(
                self,
            ).idxs().len(),
        ensures
            final(self).wf(),
            final(self).idxs() == old(self).idxs(),
            (final(self).ends(), final(self).tasks()) == lanes_to_tasks(
                old(self).idxs(),
                old(self).ends(),
                old(self).tasks(),
                lane_idxs@,
            ),
    {
        let mut k: usize = 0;
        while k < lane_idxs.len()
            invariant
                k <= lane_idxs@.len(),
                self.wf(),
                self.idxs() == old(self).idxs(),
                forall|j: int| 0 <= j < lane_idxs@.len() ==> #[trigger] lane_idxs@[j] < old(
                    self,
                ).idxs().len(),
                (self.ends(), self.tasks()) == lanes_to_tasks(
                    old(self).idxs(),
                    old(self).ends(),
                    old(self).tasks(),
                    lane_idxs@.take(k as int),
                ),
            decreases lane_idxs@.len() - k,
        {
            let l = lane_idxs[k];
            let ghost e = self.ends();
            let ghost t = self.tasks();
            proof {
                assert(lane_idxs@.take(k + 1).drop_last() =~= lane_idxs@.take(k as int));
            }
            if self.lanes[l].end_len < self.lanes[l].idxs.len() {
                let start = self.lanes[l].end_len;
                self.tasks.push(RayTask { lane: l, start_idx: start });
                let mut lane = self.lanes.remove(l);
                lane.end_len = lane.idxs.len();
                self.lanes.insert(l, lane);
                proof {
                    assert(self.tasks() =~= t.push((l as int, start as int)));
                    assert(self.ends() =~= e.update(l as int, self.idxs()[l as int].len() as int));
                    assert(self.idxs() =~= old(self).idxs());
                    let n = self.idxs();
                    let e2 = self.ends();
                    let t2 = self.tasks();
                    assert forall|a: int|
                        0 <= a < t2.len() implies 0 <= (#[trigger] t2[a]).0 < e2.len() && 0
                        <= t2[a].1 <= e2[t2[a].0] by {
                        if a < t.len() {
                            assert(t2[a] == t[a]);
                        }
                    }
                    assert forall|a: int, b: int|
                        0 <= a < b < t2.len() && (#[trigger] t2[a]).0 == (#[trigger] t2[b]).0
                            implies t2[a].1 <= t2[b].1 by {
                        if b < t.len() {
                            assert(t2[a] == t[a] && t2[b] == t[b]);
                        } else {
                            assert(t2[a] == t[a]);
                        }
                    }
                }
            } else {
                proof {
                    assert(self.ends()[l as int] >= self.idxs()[l as int].len());
                }
            }
            k += 1;
        }
        proof {
            assert(lane_idxs@.take(lane_idxs@.len() as int) =~= lane_idxs@);
        }
    }
}

} // verus!
