//! Deciding which run of message characters goes into which carrier image.
use vstd::prelude::*;
use crate::message::hidden_count;

verus! {

/// One unit of encoding work: hide the message characters `start..end`
/// (then a terminating zero byte) in the image at `file_index` of the list of
/// carrier images, and write the result under output number `file_number`.
#[derive(Clone, Copy, Debug, PartialEq, Eq)]
pub struct EncodeTask {
    pub file_index: usize,
    pub file_number: u128,
    pub start: usize,
    pub end: usize,
}

/// Where the planning stands: the character range that the next image
/// starts from, the output number that the next image gets, and the tasks
/// made so far.
pub struct PlanState {
    pub start: usize,
    pub end: usize,
    pub file_number: u128,
    pub tasks: Seq<EncodeTask>,
}

pub open spec fn initial_plan_state() -> PlanState {
    PlanState { start: 0, end: 0, file_number: 0, tasks: Seq::empty() }
}

/// Visiting the image at `index`, whose pixel data holds `pixel_len` bytes,
/// when the message has `total` characters.
///
/// The range end grows by one less than the number of characters the image
/// can hold and is cut back to `total - 1` when it passes `total`; a task is
/// made for the image. When the end has reached `total - 1` the visit asks to
/// stop the current group of images; otherwise the next image starts where
/// this one ended and gets the next output number. `None` is an overflow of
/// the machine integers, which the computation cannot survive.
pub open spec fn plan_visit(st: PlanState, index: int, pixel_len: int, total: int) -> Option<
    (PlanState, bool),
> {
    let grown = st.end + pixel_len / 8;
    if grown > usize::MAX || grown < 1 {
        None
    } else if total < 1 {
        None
    } else {
        let unclamped = grown - 1;
        let new_end = if unclamped > total {
            total - 1
        } else {
            unclamped
        };
        let task = EncodeTask {
            file_index: index as usize,
            file_number: st.file_number,
            start: st.start,
            end: new_end as usize,
        };
        let tasks = st.tasks.push(task);
        if new_end == total - 1 {
            Some((PlanState { start: st.start, end: new_end as usize, file_number: st.file_number, tasks }, true))
        } else if st.file_number + 1 > u128::MAX {
            None
        } else {
            Some(
                (
                    PlanState {
                        start: new_end as usize,
                        end: new_end as usize,
                        file_number: (st.file_number + 1) as u128,
                        tasks,
                    },
                    false,
                ),
            )
        }
    }
}

/// The group of (at most) `count` images starting at `group_start`, from
/// member `k` on: images that could not be read (`None`) are passed over,
/// and a visit that asks to stop ends the group.
pub open spec fn plan_group(
    st: PlanState,
    lens: Seq<Option<usize>>,
    group_start: int,
    k: int,
    count: int,
    total: int,
) -> Option<PlanState>
    decreases count - k,
{
    if k >= count || group_start + k >= lens.len() {
        Some(st)
    } else {
        match lens[group_start + k] {
            None => plan_group(st, lens, group_start, k + 1, count, total),
            Some(p) => match plan_visit(st, group_start + k, p as int, total) {
                None => None,
                Some((next, stop)) => if stop {
                    Some(next)
                } else {
                    plan_group(next, lens, group_start, k + 1, count, total)
                },
            },
        }
    }
}

/// One pass over all images, in groups of `count`, from the group that
/// starts at `group_start` on.
pub open spec fn plan_pass(
    st: PlanState,
    lens: Seq<Option<usize>>,
    group_start: int,
    count: int,
    total: int,
) -> Option<PlanState>
    decreases (if group_start < lens.len() {
        lens.len() - group_start
    } else {
        0
    }),
{
    if group_start >= lens.len() || count <= 0 {
        Some(st)
    } else {
        match plan_group(st, lens, group_start, 0, count, total) {
            None => None,
            Some(next) => plan_pass(next, lens, group_start + count, count, total),
        }
    }
}

/// `passes` passes over all images, from the start of the planning.
pub open spec fn plan_passes(lens: Seq<Option<usize>>, count: int, total: int, passes: nat) -> Option<
    PlanState,
>
    decreases passes,
{
    if passes == 0 {
        Some(initial_plan_state())
    } else {
        match plan_passes(lens, count, total, (passes - 1) as nat) {
            None => None,
            Some(st) => plan_pass(st, lens, 0, count, total),
        }
    }
}

/// The tasks of the whole planning, or `None` when the computation
/// overflows.
pub open spec fn spec_plan_encode(lens: Seq<Option<usize>>, total: int, count: int, passes: nat) -> Option<
    Seq<EncodeTask>,
> {
    match plan_passes(lens, count, total, passes) {
        None => None,
        Some(st) => Some(st.tasks),
    }
}

proof fn lemma_plan_passes_none(lens: Seq<Option<usize>>, count: int, total: int, i: nat, passes: nat)
    requires
        i <= passes,
        plan_passes(lens, count, total, i) is None,
    ensures
        plan_passes(lens, count, total, passes) is None,
    decreases passes - i,
{
    if i < passes {
        lemma_plan_passes_none(lens, count, total, i + 1, passes);
    }
}

/// Plans the encoding of a message of `total_chars` characters over carrier
/// images whose pixel data have the lengths `pixel_lens` (`None` for an image
/// that could not be read), with groups of `thread_count` images and
/// `passes` passes over the images. Returns `None` exactly when the planning
/// overflows a machine integer.
pub fn plan_encode(pixel_lens: &Vec<Option<usize>>, total_chars: usize, thread_count: u32, passes: u64) -> (tasks:
    Option<Vec<EncodeTask>>)
    requires
        thread_count > 0,
        pixel_lens@.len() + thread_count <= usize::MAX,
    ensures
        match tasks {
            Some(v) => spec_plan_encode(pixel_lens@, total_chars as int, thread_count as int, passes as nat)
                == Some(v@),
            None => spec_plan_encode(pixel_lens@, total_chars as int, thread_count as int, passes as nat) is None,
        },
{
    let ghost lens = pixel_lens@;
    let ghost total = total_chars as int;
    let count: usize = thread_count as usize;
    let n = pixel_lens.len();
    let mut start: usize = 0;
    let mut end: usize = 0;
    let mut file_number: u128 = 0;
    let mut tasks: Vec<EncodeTask> = Vec::new();
    let mut pass: u64 = 0;
    while pass < passes
        invariant
            lens == pixel_lens@,
            n == lens.len(),
            total == total_chars as int,
            count == thread_count as int,
            count > 0,
            n + count <= usize::MAX,
            pass <= passes,
            plan_passes(lens, count as int, total, pass as nat) == Some(
                PlanState { start, end, file_number, tasks: tasks@ },
            ),
        decreases passes - pass,
    {
        let mut j: usize = 0;
        while j < n
            invariant
                lens == pixel_lens@,
                n == lens.len(),
                total == total_chars as int,
                count == thread_count as int,
                count > 0,
                n + count <= usize::MAX,
                pass < passes,
                plan_passes(lens, count as int, total, (pass + 1) as nat) == plan_pass(
                    PlanState { start, end, file_number, tasks: tasks@ },
                    lens,
                    j as int,
                    count as int,
                    total,
                ),
            decreases (if j < n {
                n - j
            } else {
                0
            }),
        {
            let ghost group_result = plan_group(
                PlanState { start, end, file_number, tasks: tasks@ },
                lens,
                j as int,
                0,
                count as int,
                total,
            );
            let mut k: usize = 0;
            let mut done = false;
            while k < count && !done
                invariant
                    lens == pixel_lens@,
                    n == lens.len(),
                    total == total_chars as int,
                    count == thread_count as int,
                    j < n,
                    n + count <= usize::MAX,
                    pass < passes,
                    k <= count,
                    plan_passes(lens, count as int, total, (pass + 1) as nat) == match group_result {
                        None => None,
                        Some(next) => plan_pass(next, lens, j + count, count as int, total),
                    },
                    done ==> group_result == Some(PlanState { start, end, file_number, tasks: tasks@ }),
                    !done ==> group_result == plan_group(
                        PlanState { start, end, file_number, tasks: tasks@ },
                        lens,
                        j as int,
                        k as int,
                        count as int,
                        total,
                    ),
                decreases count - k,
            {
                let index = j + k;
                if index <= n - 1 {
                    match pixel_lens[index] {
                        None => {},
                        Some(p) => {
                            let ghost before = PlanState { start, end, file_number, tasks: tasks@ };
                            let grown = match end.checked_add(p / 8) {
                                Some(g) => g,
                                None => {
                                    proof {
                                        lemma_plan_passes_none(lens, count as int, total, (pass + 1) as nat, passes as nat);
                                    }
                                    return None;
                                },
                            };
                            if grown < 1 {
                                proof {
                                    lemma_plan_passes_none(lens, count as int, total, (pass + 1) as nat, passes as nat);
                                }
                                return None;
                            }
                            if total_chars < 1 {
                                proof {
                                    lemma_plan_passes_none(lens, count as int, total, (pass + 1) as nat, passes as nat);
                                }
                                return None;
                            }
                            let mut new_end = grown - 1;
                            if new_end > total_chars {
                                new_end = total_chars - 1;
                            }
                            tasks.push(EncodeTask { file_index: index, file_number, start, end: new_end });
                            end = new_end;
                            if end == total_chars - 1 {
                                done = true;
                            } else {
                                file_number = match file_number.checked_add(1) {
                                    Some(f) => f,
                                    None => {
                                        proof {
                                            lemma_plan_passes_none(lens, count as int, total, (pass + 1) as nat, passes as nat);
                                        }
                                        return None;
                                    },
                                };
                                start = end;
                            }
                            proof {
                                let visited = plan_visit(before, index as int, p as int, total);
                                assert(visited is Some);
                                assert(visited.unwrap().0 == PlanState { start, end, file_number, tasks: tasks@ });
                            }
                        },
                    }
                } else {
                    done = true;
                }
                k = k + 1;
            }
            j = j + count;
        }
        pass = pass + 1;
    }
    Some(tasks)
}

/// Every planned task names an image that could be read, and its character
/// range lies within the message: `start <= total` and `end <= total`.
pub proof fn lemma_plan_tasks_in_bounds(lens: Seq<Option<usize>>, total: int, count: int, passes: nat)
    requires
        0 <= total <= usize::MAX,
        lens.len() <= usize::MAX,
        spec_plan_encode(lens, total, count, passes) is Some,
    ensures
        forall|t: int|
            0 <= t < spec_plan_encode(lens, total, count, passes).unwrap().len() ==> {
                let task = #[trigger] spec_plan_encode(lens, total, count, passes).unwrap()[t];
                &&& task.file_index < lens.len()
                &&& lens[task.file_index as int] is Some
                &&& task.start <= total
                &&& task.end <= total
            },
{
    lemma_plan_passes_bounds(lens, total, count, passes);
}

pub open spec fn state_in_bounds(st: PlanState, lens: Seq<Option<usize>>, total: int) -> bool {
    &&& st.start <= total
    &&& st.end <= total
    &&& forall|t: int|
        0 <= t < st.tasks.len() ==> {
            let task = #[trigger] st.tasks[t];
            &&& task.file_index < lens.len()
            &&& lens[task.file_index as int] is Some
            &&& task.start <= total
            &&& task.end <= total
        }
}

proof fn lemma_plan_group_bounds(
    st: PlanState,
    lens: Seq<Option<usize>>,
    group_start: int,
    k: int,
    count: int,
    total: int,
)
    requires
        0 <= group_start,
        0 <= k,
        0 <= total <= usize::MAX,
        lens.len() <= usize::MAX,
        state_in_bounds(st, lens, total),
        plan_group(st, lens, group_start, k, count, total) is Some,
    ensures
        state_in_bounds(plan_group(st, lens, group_start, k, count, total).unwrap(), lens, total),
    decreases count - k,
{
    if k >= count || group_start + k >= lens.len() {
    } else {
        match lens[group_start + k] {
            None => lemma_plan_group_bounds(st, lens, group_start, k + 1, count, total),
            Some(p) => {
                let next = plan_visit(st, group_start + k, p as int, total).unwrap().0;
                assert(state_in_bounds(next, lens, total)) by {
                    assert forall|t: int| 0 <= t < next.tasks.len() implies {
                        let task = #[trigger] next.tasks[t];
                        &&& task.file_index < lens.len()
                        &&& lens[task.file_index as int] is Some
                        &&& task.start <= total
                        &&& task.end <= total
                    } by {
                        if t < st.tasks.len() {
                            assert(next.tasks[t] == st.tasks[t]);
                        }
                    }
                }
                if !plan_visit(st, group_start + k, p as int, total).unwrap().1 {
                    lemma_plan_group_bounds(next, lens, group_start, k + 1, count, total);
                }
            },
        }
    }
}

proof fn lemma_plan_pass_bounds(st: PlanState, lens: Seq<Option<usize>>, group_start: int, count: int, total: int)
    requires
        0 <= group_start,
        0 <= total <= usize::MAX,
        lens.len() <= usize::MAX,
        state_in_bounds(st, lens, total),
        plan_pass(st, lens, group_start, count, total) is Some,
    ensures
        state_in_bounds(plan_pass(st, lens, group_start, count, total).unwrap(), lens, total),
    decreases (if group_start < lens.len() {
        lens.len() - group_start
    } else {
        0
    }),
{
    if group_start >= lens.len() || count <= 0 {
    } else {
        lemma_plan_group_bounds(st, lens, group_start, 0, count, total);
        let next = plan_group(st, lens, group_start, 0, count, total).unwrap();
        lemma_plan_pass_bounds(next, lens, group_start + count, count, total);
    }
}

proof fn lemma_plan_passes_bounds(lens: Seq<Option<usize>>, total: int, count: int, passes: nat)
    requires
        0 <= total <= usize::MAX,
        lens.len() <= usize::MAX,
        plan_passes(lens, count, total, passes) is Some,
    ensures
        state_in_bounds(plan_passes(lens, count, total, passes).unwrap(), lens, total),
    decreases passes,
{
    if passes == 0 {
    } else {
        lemma_plan_passes_bounds(lens, total, count, (passes - 1) as nat);
        lemma_plan_pass_bounds(plan_passes(lens, count, total, (passes - 1) as nat).unwrap(), lens, 0, count, total);
    }
}

/// How task `next` follows task `prev`: either it continues the message
/// where `prev` ended under the next output number, or it repeats the output
/// number and the start of `prev`.
pub open spec fn follows(prev: EncodeTask, next: EncodeTask) -> bool {
    ||| (next.file_number == prev.file_number + 1 && next.start == prev.end)
    ||| (next.file_number == prev.file_number && next.start == prev.start)
}

/// The tasks start at output number 0 and character 0, and each task follows
/// the one before it.
pub open spec fn chained(tasks: Seq<EncodeTask>) -> bool {
    &&& tasks.len() > 0 ==> tasks[0].file_number == 0 && tasks[0].start == 0
    &&& forall|t: int| 0 <= t < tasks.len() - 1 ==> follows(#[trigger] tasks[t], tasks[t + 1])
}

pub open spec fn state_chained(st: PlanState) -> bool {
    &&& chained(st.tasks)
    &&& st.tasks.len() == 0 ==> st.file_number == 0 && st.start == 0
    &&& st.tasks.len() > 0 ==> follows(
        st.tasks.last(),
        EncodeTask { file_index: 0, file_number: st.file_number, start: st.start, end: 0 },
    )
}

proof fn lemma_plan_group_chained(
    st: PlanState,
    lens: Seq<Option<usize>>,
    group_start: int,
    k: int,
    count: int,
    total: int,
)
    requires
        state_chained(st),
        plan_group(st, lens, group_start, k, count, total) is Some,
    ensures
        state_chained(plan_group(st, lens, group_start, k, count, total).unwrap()),
    decreases count - k,
{
    if k >= count || group_start + k >= lens.len() {
    } else {
        match lens[group_start + k] {
            None => lemma_plan_group_chained(st, lens, group_start, k + 1, count, total),
            Some(p) => {
                let next = plan_visit(st, group_start + k, p as int, total).unwrap().0;
                let task = next.tasks.last();
                assert(next.tasks =~= st.tasks.push(task));
                assert(chained(next.tasks)) by {
                    assert forall|t: int| 0 <= t < next.tasks.len() - 1 implies follows(
                        #[trigger] next.tasks[t],
                        next.tasks[t + 1],
                    ) by {
                        if t < st.tasks.len() - 1 {
                            assert(next.tasks[t] == st.tasks[t] && next.tasks[t + 1] == st.tasks[t + 1]);
                            assert(follows(st.tasks[t], st.tasks[t + 1]));
                        } else {
                            assert(next.tasks[t] == st.tasks.last());
                        }
                    }
                }
                if !plan_visit(st, group_start + k, p as int, total).unwrap().1 {
                    lemma_plan_group_chained(next, lens, group_start, k + 1, count, total);
                }
            },
        }
    }
}

proof fn lemma_plan_pass_chained(st: PlanState, lens: Seq<Option<usize>>, group_start: int, count: int, total: int)
    requires
        state_chained(st),
        plan_pass(st, lens, group_start, count, total) is Some,
    ensures
        state_chained(plan_pass(st, lens, group_start, count, total).unwrap()),
    decreases (if group_start < lens.len() {
        lens.len() - group_start
    } else {
        0
    }),
{
    if group_start >= lens.len() || count <= 0 {
    } else {
        lemma_plan_group_chained(st, lens, group_start, 0, count, total);
        let next = plan_group(st, lens, group_start, 0, count, total).unwrap();
        lemma_plan_pass_chained(next, lens, group_start + count, count, total);
    }
}

proof fn lemma_plan_passes_chained(lens: Seq<Option<usize>>, total: int, count: int, passes: nat)
    requires
        plan_passes(lens, count, total, passes) is Some,
    ensures
        state_chained(plan_passes(lens, count, total, passes).unwrap()),
    decreases passes,
{
    if passes > 0 {
        lemma_plan_passes_chained(lens, total, count, (passes - 1) as nat);
        lemma_plan_pass_chained(plan_passes(lens, count, total, (passes - 1) as nat).unwrap(), lens, 0, count, total);
    }
}

/// The message is split into consecutive pieces: the first task starts at
/// character 0 under output number 0, and each later task either continues
/// where the one before it ended, under the next output number, or repeats
/// the output number and start of the one before it.
pub proof fn lemma_plan_tasks_chained(lens: Seq<Option<usize>>, total: int, count: int, passes: nat)
    requires
        spec_plan_encode(lens, total, count, passes) is Some,
    ensures
        chained(spec_plan_encode(lens, total, count, passes).unwrap()),
{
    lemma_plan_passes_chained(lens, total, count, passes);
}

/// The task's image can hold the task's characters and the terminating zero
/// byte, eight pixel bytes per character.
pub open spec fn fits(task: EncodeTask, lens: Seq<Option<usize>>) -> bool {
    match lens[task.file_index as int] {
        Some(p) => 8 * (hidden_count(task.start as int, task.end as int) + 1) <= p,
        None => false,
    }
}

/// The image at `index` could be read and has at least eight pixel bytes, room
/// for one hidden byte.
pub open spec fn holds_a_byte(lens: Seq<Option<usize>>, index: int) -> bool {
    match lens[index] {
        Some(p) => p >= 8,
        None => false,
    }
}

/// No task among the first `n` has reached the end of the message.
pub open spec fn incomplete_before(tasks: Seq<EncodeTask>, n: int, total: int) -> bool {
    forall|u: int| 0 <= u < n ==> #[trigger] tasks[u].end != total - 1
}

/// The task's image could be read, and the task's range end lies one less
/// than the image's character capacity (`p / 8` for `p` pixel bytes) past its
/// start, cut back to `total - 1` when that passes `total`.
pub open spec fn uses_capacity(task: EncodeTask, lens: Seq<Option<usize>>, total: int) -> bool {
    &&& lens[task.file_index as int] is Some
    &&& {
        let p = lens[task.file_index as int].unwrap() as int;
        let reach = task.start + p / 8 - 1;
        task.end == if reach > total {
            total - 1
        } else {
            reach
        }
    }
}

pub open spec fn state_fits(st: PlanState, lens: Seq<Option<usize>>, total: int) -> bool {
    &&& incomplete_before(st.tasks, st.tasks.len() as int, total) ==> st.start == st.end
    &&& forall|t: int|
        0 <= t < st.tasks.len() && incomplete_before(st.tasks, t, total) ==> uses_capacity(
            #[trigger] st.tasks[t],
            lens,
            total,
        )
    &&& forall|t: int|
        0 <= t < st.tasks.len() && incomplete_before(st.tasks, t, total) && holds_a_byte(lens, #[trigger] st.tasks[t].file_index as int) ==> fits(st.tasks[t], lens)
}

proof fn lemma_plan_group_fits(
    st: PlanState,
    lens: Seq<Option<usize>>,
    group_start: int,
    k: int,
    count: int,
    total: int,
)
    requires
        0 <= group_start,
        0 <= k,
        lens.len() <= usize::MAX,
        state_fits(st, lens, total),
        plan_group(st, lens, group_start, k, count, total) is Some,
    ensures
        state_fits(plan_group(st, lens, group_start, k, count, total).unwrap(), lens, total),
    decreases count - k,
{
    if k >= count || group_start + k >= lens.len() {
    } else {
        match lens[group_start + k] {
            None => lemma_plan_group_fits(st, lens, group_start, k + 1, count, total),
            Some(p) => {
                let (next, stop) = plan_visit(st, group_start + k, p as int, total).unwrap();
                let n = st.tasks.len() as int;
                let task = next.tasks[n];
                assert(next.tasks =~= st.tasks.push(task));
                assert forall|t: int|
                    0 <= t < next.tasks.len() && incomplete_before(next.tasks, t, total)
                        && holds_a_byte(lens, #[trigger] next.tasks[t].file_index as int)
                    implies fits(next.tasks[t], lens) by {
                    if t < n {
                        assert(next.tasks[t] == st.tasks[t]);
                        assert(incomplete_before(st.tasks, t, total)) by {
                            assert forall|u: int| 0 <= u < t implies #[trigger] st.tasks[u].end != total - 1 by {
                                assert(next.tasks[u] == st.tasks[u]);
                            }
                        }
                    } else {
                        assert(incomplete_before(st.tasks, n, total)) by {
                            assert forall|u: int| 0 <= u < n implies #[trigger] st.tasks[u].end != total - 1 by {
                                assert(next.tasks[u] == st.tasks[u]);
                            }
                        }
                        assert(st.start == st.end);
                        assert(8 * (p as int / 8) <= p) by {
                            vstd::arithmetic::div_mod::lemma_fundamental_div_mod(p as int, 8);
                        }
                    }
                }
                assert forall|t: int|
                    0 <= t < next.tasks.len() && incomplete_before(next.tasks, t, total) implies uses_capacity(
                    #[trigger] next.tasks[t],
                    lens,
                    total,
                ) by {
                    if t < n {
                        assert(next.tasks[t] == st.tasks[t]);
                        assert(incomplete_before(st.tasks, t, total)) by {
                            assert forall|u: int| 0 <= u < t implies #[trigger] st.tasks[u].end != total - 1 by {
                                assert(next.tasks[u] == st.tasks[u]);
                            }
                        }
                    } else {
                        assert(incomplete_before(st.tasks, n, total)) by {
                            assert forall|u: int| 0 <= u < n implies #[trigger] st.tasks[u].end != total - 1 by {
                                assert(next.tasks[u] == st.tasks[u]);
                            }
                        }
                        assert(st.start == st.end);
                    }
                }
                assert(incomplete_before(next.tasks, next.tasks.len() as int, total) ==> next.start == next.end) by {
                    if stop {
                        assert(next.tasks[n].end == total - 1);
                    }
                }
                if !stop {
                    lemma_plan_group_fits(next, lens, group_start, k + 1, count, total);
                }
            },
        }
    }
}

proof fn lemma_plan_pass_fits(st: PlanState, lens: Seq<Option<usize>>, group_start: int, count: int, total: int)
    requires
        0 <= group_start,
        lens.len() <= usize::MAX,
        state_fits(st, lens, total),
        plan_pass(st, lens, group_start, count, total) is Some,
    ensures
        state_fits(plan_pass(st, lens, group_start, count, total).unwrap(), lens, total),
    decreases (if group_start < lens.len() {
        lens.len() - group_start
    } else {
        0
    }),
{
    if group_start >= lens.len() || count <= 0 {
    } else {
        lemma_plan_group_fits(st, lens, group_start, 0, count, total);
        let next = plan_group(st, lens, group_start, 0, count, total).unwrap();
        lemma_plan_pass_fits(next, lens, group_start + count, count, total);
    }
}

proof fn lemma_plan_passes_fits(lens: Seq<Option<usize>>, total: int, count: int, passes: nat)
    requires
        lens.len() <= usize::MAX,
        plan_passes(lens, count, total, passes) is Some,
    ensures
        state_fits(plan_passes(lens, count, total, passes).unwrap(), lens, total),
    decreases passes,
{
    if passes > 0 {
        lemma_plan_passes_fits(lens, total, count, (passes - 1) as nat);
        lemma_plan_pass_fits(plan_passes(lens, count, total, (passes - 1) as nat).unwrap(), lens, 0, count, total);
    }
}

/// An image is used to its capacity: every task up to and including the
/// first one that reaches the end of the message (character `total - 1`)
/// covers, from its start, one character less than its image holds (`p / 8`
/// characters for `p` pixel bytes), or the rest of the message up to
/// character `total - 1` when the image holds more than that.
pub proof fn lemma_plan_tasks_use_capacity(lens: Seq<Option<usize>>, total: int, count: int, passes: nat)
    requires
        lens.len() <= usize::MAX,
        spec_plan_encode(lens, total, count, passes) is Some,
    ensures
        forall|t: int|
            0 <= t < spec_plan_encode(lens, total, count, passes).unwrap().len() && incomplete_before(
                spec_plan_encode(lens, total, count, passes).unwrap(),
                t,
                total,
            ) ==> {
                let task = #[trigger] spec_plan_encode(lens, total, count, passes).unwrap()[t];
                let p = lens[task.file_index as int].unwrap() as int;
                &&& lens[task.file_index as int] is Some
                &&& task.end == if task.start + p / 8 - 1 > total {
                    total - 1
                } else {
                    task.start + p / 8 - 1
                }
            },
{
    lemma_plan_passes_fits(lens, total, count, passes);
    let tasks = spec_plan_encode(lens, total, count, passes).unwrap();
    assert forall|t: int| 0 <= t < tasks.len() && incomplete_before(tasks, t, total) implies uses_capacity(
        #[trigger] tasks[t],
        lens,
        total,
    ) by {}
}

/// The images are filled in turn until the message is placed: every task up
/// to and including the first one that reaches the end of the message
/// (character `total - 1`) fits its image, when that image has at least
/// eight pixel bytes.
pub proof fn lemma_plan_tasks_fit_until_complete(lens: Seq<Option<usize>>, total: int, count: int, passes: nat)
    requires
        lens.len() <= usize::MAX,
        spec_plan_encode(lens, total, count, passes) is Some,
    ensures
        forall|t: int|
            0 <= t < spec_plan_encode(lens, total, count, passes).unwrap().len() && incomplete_before(
                spec_plan_encode(lens, total, count, passes).unwrap(),
                t,
                total,
            ) && holds_a_byte(lens, #[trigger] spec_plan_encode(lens, total, count, passes).unwrap()[t].file_index as int) ==> fits(spec_plan_encode(lens, total, count, passes).unwrap()[t], lens),
{
    lemma_plan_passes_fits(lens, total, count, passes);
}

/// The total number of pixel bytes of the images that could be read.
pub open spec fn spec_available_bytes(lens: Seq<Option<usize>>) -> nat
    decreases lens.len(),
{
    if lens.len() == 0 {
        0
    } else {
        spec_available_bytes(lens.drop_last()) + match lens.last() {
            Some(p) => p as nat,
            None => 0,
        }
    }
}

/// Adds up the pixel bytes that the readable images offer for hiding a
/// message; `None` when the sum does not fit in a `u64`.
pub fn available_bytes(pixel_lens: &Vec<Option<usize>>) -> (available: Option<u64>)
    ensures
        match available {
            Some(total) => total == spec_available_bytes(pixel_lens@),
            None => spec_available_bytes(pixel_lens@) > u64::MAX,
        },
{
    let mut sum: u64 = 0;
    let mut i: usize = 0;
    while i < pixel_lens.len()
        invariant
            i <= pixel_lens@.len(),
            sum == spec_available_bytes(pixel_lens@.take(i as int)),
        decreases pixel_lens@.len() - i,
    {
        assert(pixel_lens@.take(i + 1).drop_last() =~= pixel_lens@.take(i as int));
        match pixel_lens[i] {
            None => {},
            Some(p) => {
                sum = match sum.checked_add(p as u64) {
                    Some(s) => s,
                    None => {
                        proof {
                            lemma_available_bytes_monotone(pixel_lens@, i as int + 1);
                        }
                        return None;
                    },
                };
            },
        }
        i += 1;
    }
    assert(pixel_lens@.take(i as int) =~= pixel_lens@);
    Some(sum)
}

/// Every readable image adds its full pixel length to the total, whatever
/// the images before it, and an unreadable one adds nothing.
pub proof fn lemma_available_bytes_push(lens: Seq<Option<usize>>, image: Option<usize>)
    ensures
        spec_available_bytes(lens.push(image)) == spec_available_bytes(lens) + match image {
            Some(p) => p as nat,
            None => 0nat,
        },
{
    assert(lens.push(image).drop_last() =~= lens);
}

/// The total of two lists of images together is the sum of their totals.
pub proof fn lemma_available_bytes_concat(a: Seq<Option<usize>>, b: Seq<Option<usize>>)
    ensures
        spec_available_bytes(a + b) == spec_available_bytes(a) + spec_available_bytes(b),
    decreases b.len(),
{
    if b.len() == 0 {
        assert(a + b =~= a);
    } else {
        lemma_available_bytes_concat(a, b.drop_last());
        assert((a + b).drop_last() =~= a + b.drop_last());
        lemma_available_bytes_push(a + b.drop_last(), b.last());
        lemma_available_bytes_push(b.drop_last(), b.last());
        assert(b.drop_last().push(b.last()) =~= b);
        assert((a + b.drop_last()).push(b.last()) =~= a + b);
    }
}

proof fn lemma_available_bytes_monotone(lens: Seq<Option<usize>>, i: int)
    requires
        0 <= i <= lens.len(),
    ensures
        spec_available_bytes(lens.take(i)) <= spec_available_bytes(lens),
    decreases lens.len() - i,
{
    if i < lens.len() {
        lemma_available_bytes_monotone(lens, i + 1);
        assert(lens.take(i + 1).drop_last() =~= lens.take(i));
    } else {
        assert(lens.take(i) =~= lens);
    }
}

} // verus!
