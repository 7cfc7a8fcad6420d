//! Tasks that turn input files into output files, and the store that keeps
//! them by input path.

use vstd::prelude::*;

use crate::paths::{path_key, path_key_of};
use crate::resolve::{canonicalize, is_absolute, resolves_to};

verus! {

/// What a task does with its inputs to make its outputs.
#[derive(Clone, Copy, Debug, PartialEq, Eq, Structural)]
pub enum Action {
    /// Packs the Aseprite files among the inputs into an atlas; the outputs
    /// are the metadata file and the image, in that order.
    Atlas,
    /// Writes the Android string resources to each output.
    AndroidValues,
    /// Renders the Android launcher icons from the background and foreground
    /// images given as inputs; the outputs are, for each density in turn, the
    /// background, foreground and legacy icons, then the adaptive icon files.
    AndroidIcons,
    /// Renders the iOS app icon from the background and foreground images;
    /// the outputs are the icon image and its description.
    IosIcon,
}

/// A task: an action, the files it reads and the files it writes.
pub struct Task {
    pub action: Action,
    pub inputs: Vec<String>,
    pub outputs: Vec<String>,
}

/// Paths of a sequence of strings.
pub open spec fn paths_view(v: Seq<String>) -> Seq<Seq<char>> {
    v.map_values(|s: String| s@)
}

impl View for Task {
    type V = (Action, Seq<Seq<char>>, Seq<Seq<char>>);

    open spec fn view(&self) -> (Action, Seq<Seq<char>>, Seq<Seq<char>>) {
        (self.action, paths_view(self.inputs@), paths_view(self.outputs@))
    }
}

/// The time at which the last input changed, or `now` when it is not known.
pub open spec fn newest_input(input_times: Option<Seq<i128>>, now: i128) -> int {
    match input_times {
        Some(t) => if t.len() == 0 {
            now as int
        } else {
            seq_max(t)
        },
        None => now as int,
    }
}

/// The time at which the first output changed, or the epoch when it is not
/// known.
pub open spec fn oldest_output(output_times: Option<Seq<i128>>) -> int {
    match output_times {
        Some(t) => if t.len() == 0 {
            0
        } else {
            seq_min(t)
        },
        None => 0,
    }
}

/// Largest element of a non-empty sequence.
pub open spec fn seq_max(t: Seq<i128>) -> int
    decreases t.len(),
{
    if t.len() <= 1 {
        t[0] as int
    } else {
        let m = seq_max(t.drop_last());
        if t.last() > m {
            t.last() as int
        } else {
            m
        }
    }
}

/// Smallest element of a non-empty sequence.
pub open spec fn seq_min(t: Seq<i128>) -> int
    decreases t.len(),
{
    if t.len() <= 1 {
        t[0] as int
    } else {
        let m = seq_min(t.drop_last());
        if t.last() < m {
            t.last() as int
        } else {
            m
        }
    }
}

/// The largest element is one of the elements and no element is larger.
pub proof fn lemma_seq_max_greatest(t: Seq<i128>)
    requires
        t.len() > 0,
    ensures
        forall|i: int| 0 <= i < t.len() ==> t[i] <= seq_max(t),
        exists|j: int| 0 <= j < t.len() && t[j] == seq_max(t),
    decreases t.len(),
{
    if t.len() > 1 {
        let pre = t.drop_last();
        lemma_seq_max_greatest(pre);
        let j = choose|j: int| 0 <= j < pre.len() && pre[j] == seq_max(pre);
        assert forall|i: int| 0 <= i < t.len() implies t[i] <= seq_max(t) by {
            if i < pre.len() {
                assert(pre[i] == t[i]);
            }
        }
        if t.last() > seq_max(pre) {
            assert(t[t.len() - 1] == seq_max(t));
        } else {
            assert(t[j] == seq_max(t));
        }
    } else {
        assert(t[0] == seq_max(t));
    }
}

/// The smallest element is one of the elements and no element is smaller.
pub proof fn lemma_seq_min_least(t: Seq<i128>)
    requires
        t.len() > 0,
    ensures
        forall|i: int| 0 <= i < t.len() ==> seq_min(t) <= t[i],
        exists|j: int| 0 <= j < t.len() && t[j] == seq_min(t),
    decreases t.len(),
{
    if t.len() > 1 {
        let pre = t.drop_last();
        lemma_seq_min_least(pre);
        let j = choose|j: int| 0 <= j < pre.len() && pre[j] == seq_min(pre);
        assert forall|i: int| 0 <= i < t.len() implies seq_min(t) <= t[i] by {
            if i < pre.len() {
                assert(pre[i] == t[i]);
            }
        }
        if t.last() < seq_min(pre) {
            assert(t[t.len() - 1] == seq_min(t));
        } else {
            assert(t[j] == seq_min(t));
        }
    } else {
        assert(t[0] == seq_min(t));
    }
}

/// With every time known, a task is stale exactly when some input changed
/// after some output was written; with no output time known, exactly when
/// some input changed after the epoch; and with no input time known,
/// exactly when some output was written before `now`.
pub proof fn lemma_stale_iff_input_newer(ins: Seq<i128>, outs: Seq<i128>, now: i128)
    requires
        ins.len() > 0,
        outs.len() > 0,
    ensures
        newest_input(Some(ins), now) > oldest_output(Some(outs)) <==> exists|i: int, j: int|
            0 <= i < ins.len() && 0 <= j < outs.len() && ins[i] > outs[j],
        newest_input(Some(ins), now) > oldest_output(None) <==> exists|i: int|
            0 <= i < ins.len() && ins[i] > 0,
        newest_input(None, now) > oldest_output(Some(outs)) <==> exists|j: int|
            0 <= j < outs.len() && now > outs[j],
{
    lemma_seq_max_greatest(ins);
    lemma_seq_min_least(outs);
    let i0 = choose|i: int| 0 <= i < ins.len() && ins[i] == seq_max(ins);
    let j0 = choose|j: int| 0 <= j < outs.len() && outs[j] == seq_min(outs);
    if newest_input(Some(ins), now) > oldest_output(Some(outs)) {
        assert(ins[i0] > outs[j0]);
    }
    if newest_input(Some(ins), now) > oldest_output(None) {
        assert(ins[i0] > 0);
    }
    if newest_input(None, now) > oldest_output(Some(outs)) {
        assert(now > outs[j0]);
    }
}

/// Times that could not be read count as no times. With no input time the
/// newest input is taken to have changed now, and with no output time the
/// oldest output to have been written at the epoch.
pub proof fn lemma_unknown_times(now: i128)
    ensures
        newest_input(None, now) == now,
        newest_input(Some(Seq::empty()), now) == now,
        oldest_output(None) == 0,
        oldest_output(Some(Seq::empty())) == 0,
{
}

impl Task {
    /// A task that runs `action` to make `outputs` from `inputs`.
    pub fn new(action: Action, inputs: Vec<String>, outputs: Vec<String>) -> (res: Task)
        ensures
            res.action == action,
            res.inputs == inputs,
            res.outputs == outputs,
    {
        Task { inputs, outputs, action }
    }

    /// Whether a task must run, given the modification times of its inputs
    /// and outputs (`None` when one of them could not be read) and the time
    /// now, all in nanoseconds from the Unix epoch: it runs when its newest
    /// input is newer than its oldest output. Unknown input times count as
    /// now and unknown output times as the epoch.
    pub fn is_stale(input_times: Option<&[i128]>, output_times: Option<&[i128]>, now: i128) -> (res:
        bool)
        ensures
            res == (newest_input(
                match input_times {
                    Some(t) => Some(t@),
                    None => None,
                },
                now,
            ) > oldest_output(
                match output_times {
                    Some(t) => Some(t@),
                    None => None,
                },
            )),
    {
        let newest: i128 = match input_times {
            Some(t) if t.len() > 0 => max_of(t),
            _ => now,
        };
        let oldest: i128 = match output_times {
            Some(t) if t.len() > 0 => min_of(t),
            _ => 0,
        };
        newest > oldest
    }
}

fn max_of(t: &[i128]) -> (m: i128)
    requires
        t@.len() > 0,
    ensures
        m == seq_max(t@),
{
    let mut m = t[0];
    let n = t.len();
    assert(t@.subrange(0, 1).len() == 1);
    for i in 1..n
        invariant
            n == t@.len(),
            m == seq_max(t@.subrange(0, i as int)),
    {
        assert(t@.subrange(0, i + 1).drop_last() =~= t@.subrange(0, i as int));
        if t[i] > m {
            m = t[i];
        }
    }
    assert(t@.subrange(0, n as int) =~= t@);
    m
}

fn min_of(t: &[i128]) -> (m: i128)
    requires
        t@.len() > 0,
    ensures
        m == seq_min(t@),
{
    let mut m = t[0];
    let n = t.len();
    assert(t@.subrange(0, 1).len() == 1);
    for i in 1..n
        invariant
            n == t@.len(),
            m == seq_min(t@.subrange(0, i as int)),
    {
        assert(t@.subrange(0, i + 1).drop_last() =~= t@.subrange(0, i as int));
        if t[i] < m {
            m = t[i];
        }
    }
    assert(t@.subrange(0, n as int) =~= t@);
    m
}

/// The path a task keeps for `path`, given what resolving it gave: the
/// resolved path, or `path` itself where it could not be resolved.
pub open spec fn kept_path(path: Seq<char>, outcome: Option<String>) -> Seq<char> {
    match outcome {
        Some(p) => p@,
        None => path,
    }
}

/// The path a task keeps for `path`, given what resolving it gave.
pub fn resolved_or_given(path: &String, outcome: &Option<String>) -> (res: String)
    ensures
        res@ == kept_path(path@, *outcome),
{
    match outcome {
        Some(p) => p.clone(),
        None => path.clone(),
    }
}

/// What resolving each path gave, in order.
fn outcomes_of(paths: &[String]) -> (res: Vec<Option<String>>)
    ensures
        res@.len() == paths@.len(),
        forall|i: int| 0 <= i < res@.len() ==> resolves_to(paths@[i]@, #[trigger] res@[i]),
{
    let mut res: Vec<Option<String>> = Vec::new();
    for i in 0..paths.len()
        invariant
            res@.len() == i,
            forall|k: int| 0 <= k < res@.len() ==> resolves_to(paths@[k]@, #[trigger] res@[k]),
    {
        let r = canonicalize(&paths[i]);
        let ghost g = r;
        let outcome = r.into_outcome();
        assert(g.from() == paths@[i as int]@);
        res.push(outcome);
    }
    res
}

/// The paths a task keeps, given what resolving each gave.
fn kept_paths(paths: &[String], outcomes: &[Option<String>]) -> (res: Vec<String>)
    requires
        outcomes@.len() == paths@.len(),
    ensures
        res@.len() == paths@.len(),
        forall|i: int| 0 <= i < res@.len() ==> #[trigger] res@[i]@ == kept_path(paths@[i]@, outcomes@[i]),
{
    let mut res: Vec<String> = Vec::new();
    for i in 0..paths.len()
        invariant
            outcomes@.len() == paths@.len(),
            res@.len() == i,
            forall|k: int| 0 <= k < res@.len() ==> #[trigger] res@[k]@ == kept_path(paths@[k]@, outcomes@[k]),
    {
        res.push(resolved_or_given(&paths[i], &outcomes[i]));
    }
    res
}

/// `kept` is what a task keeps of the planned path `given`: what some
/// resolution of `given` gave, or `given` itself where it could not be
/// resolved.
pub open spec fn kept_from(given: Seq<char>, kept: Seq<char>) -> bool {
    exists|o: Option<String>| #[trigger] resolves_to(given, o) && kept == kept_path(given, o)
}

/// A kept path is the planned path itself or an absolute one.
pub proof fn lemma_kept_given_or_absolute(given: Seq<char>, kept: Seq<char>)
    requires
        kept_from(given, kept),
    ensures
        kept == given || is_absolute(kept),
{
    let o = choose|o: Option<String>| #[trigger] resolves_to(given, o) && kept == kept_path(given, o);
}

/// `new` is `old` with one more task, made from the planned task `plan`
/// (action, inputs, outputs): same action, as many outputs, as many inputs
/// or the empty path alone when it has none. Each path is kept from its
/// planned path as `kept_from` says.
pub open spec fn added(old: Seq<Task>, new: Seq<Task>, plan: (Action, Seq<Seq<char>>, Seq<Seq<char>>)) -> bool {
    &&& new.len() == old.len() + 1
    &&& new.drop_last() == old
    &&& new.last().action == plan.0
    &&& new.last().outputs@.len() == plan.2.len()
    &&& plan.1.len() > 0 ==> new.last().inputs@.len() == plan.1.len()
    &&& plan.1.len() == 0 ==> new.last().inputs@.len() == 1 && new.last().inputs@[0]@ == Seq::<
        char,
    >::empty()
    &&& forall|i: int| 0 <= i < plan.1.len() ==> kept_from(plan.1[i], #[trigger] new.last().inputs@[i]@)
    &&& forall|i: int| 0 <= i < plan.2.len() ==> kept_from(plan.2[i], #[trigger] new.last().outputs@[i]@)
}

/// `new` is `old` with one task more for each planned task of `plan`, in
/// order, each made from its plan as `added` says.
pub open spec fn grown_by(
    old: Seq<Task>,
    new: Seq<Task>,
    plan: Seq<(Action, Seq<Seq<char>>, Seq<Seq<char>>)>,
) -> bool {
    &&& new.len() == old.len() + plan.len()
    &&& new.subrange(0, old.len() as int) == old
    &&& forall|k: int|
        0 <= k < plan.len() ==> added(
            new.subrange(0, old.len() + k),
            new.subrange(0, old.len() + k + 1),
            #[trigger] plan[k],
        )
}

/// Growing by one plan and then by another is growing by both.
pub proof fn lemma_grown_by_trans(
    a: Seq<Task>,
    b: Seq<Task>,
    c: Seq<Task>,
    p: Seq<(Action, Seq<Seq<char>>, Seq<Seq<char>>)>,
    q: Seq<(Action, Seq<Seq<char>>, Seq<Seq<char>>)>,
)
    requires
        grown_by(a, b, p),
        grown_by(b, c, q),
    ensures
        grown_by(a, c, p + q),
{
    assert(c.subrange(0, a.len() as int) =~= b.subrange(0, a.len() as int));
    assert forall|k: int| 0 <= k < (p + q).len() implies added(
        c.subrange(0, a.len() + k),
        c.subrange(0, a.len() + k + 1),
        #[trigger] (p + q)[k],
    ) by {
        if k < p.len() {
            assert(c.subrange(0, a.len() + k) =~= b.subrange(0, a.len() + k));
            assert(c.subrange(0, a.len() + k + 1) =~= b.subrange(0, a.len() + k + 1));
            assert(added(b.subrange(0, a.len() + k), b.subrange(0, a.len() + k + 1), p[k]));
        } else {
            let j = k - p.len();
            assert(added(c.subrange(0, b.len() + j), c.subrange(0, b.len() + j + 1), q[j]));
        }
    }
}

/// Views of planned tasks.
pub open spec fn plan_view(plan: Seq<Task>) -> Seq<(Action, Seq<Seq<char>>, Seq<Seq<char>>)> {
    plan.map_values(|t: Task| t@)
}

/// How often `p` occurs in `s`.
pub open spec fn count_of(s: Seq<Seq<char>>, p: Seq<char>) -> nat
    decreases s.len(),
{
    if s.len() == 0 {
        0
    } else {
        count_of(s.drop_last(), p) + if s.last() == p {
            1nat
        } else {
            0nat
        }
    }
}

/// `id`, `n` times.
pub open spec fn repeat(id: usize, n: nat) -> Seq<usize> {
    Seq::new(n, |k: int| id)
}

/// The keys (`path_key`) of the inputs of a task: its inputs as paths are
/// compared, by their components.
pub open spec fn input_keys(t: Task) -> Seq<Seq<char>> {
    t.inputs@.map_values(|s: String| path_key(s@))
}

/// The tasks registered under the path key `p`, by index, in the order they
/// were added; a task is there once for each of its inputs whose key is `p`,
/// that is, for each input that is the same path however it is written.
pub open spec fn occurrences(tasks: Seq<Task>, p: Seq<char>) -> Seq<usize>
    decreases tasks.len(),
{
    if tasks.len() == 0 {
        Seq::empty()
    } else {
        occurrences(tasks.drop_last(), p) + repeat(
            (tasks.len() - 1) as usize,
            count_of(input_keys(tasks.last()), p),
        )
    }
}

/// Two spellings of one path, such as `x` and `x/`, or `a/./b` and `a/b`,
/// find the same tasks: tasks are listed by the components of their inputs.
pub proof fn lemma_same_path_same_tasks(tasks: Seq<Task>, a: Seq<char>, b: Seq<char>)
    requires
        crate::paths::components(a) == crate::paths::components(b),
    ensures
        occurrences(tasks, path_key(a)) == occurrences(tasks, path_key(b)),
{
    crate::paths::lemma_path_key_same(a, b);
}

/// The entries of the store as path keys and task indices.
pub open spec fn entries_view(e: Seq<(String, Vec<usize>)>) -> Seq<(Seq<char>, Seq<usize>)> {
    e.map_values(|x: (String, Vec<usize>)| (x.0@, x.1@))
}

/// The indices stored under the first entry for `p`, or none.
pub open spec fn lookup(ev: Seq<(Seq<char>, Seq<usize>)>, p: Seq<char>) -> Seq<usize>
    decreases ev.len(),
{
    if ev.len() == 0 {
        Seq::empty()
    } else if ev[0].0 == p {
        ev[0].1
    } else {
        lookup(ev.drop_first(), p)
    }
}

/// The tasks of the pipeline, kept by input path. Each task is kept once and
/// listed under each of its inputs; a task with no input is listed under the
/// empty path.
pub struct TaskStore {
    tasks: Vec<Task>,
    entries: Vec<(String, Vec<usize>)>,
    spellings: Vec<String>,
}

/// `sp` holds, for each entry, the path as it was first given, whose key is
/// the entry's key.
pub open spec fn spelled(sp: Seq<String>, ev: Seq<(Seq<char>, Seq<usize>)>) -> bool {
    &&& sp.len() == ev.len()
    &&& forall|e: int| 0 <= e < ev.len() ==> path_key(#[trigger] sp[e]@) == ev[e].0
}

impl View for TaskStore {
    type V = Seq<Task>;

    closed spec fn view(&self) -> Seq<Task> {
        self.tasks@
    }
}

proof fn lemma_lookup_found(ev: Seq<(Seq<char>, Seq<usize>)>, p: Seq<char>, e: int)
    requires
        0 <= e < ev.len(),
        ev[e].0 == p,
        forall|k: int| 0 <= k < e ==> ev[k].0 != p,
    ensures
        lookup(ev, p) == ev[e].1,
    decreases e,
{
    if e > 0 {
        assert(ev[0].0 != p);
        lemma_lookup_found(ev.drop_first(), p, e - 1);
    }
}

proof fn lemma_lookup_missing(ev: Seq<(Seq<char>, Seq<usize>)>, p: Seq<char>)
    requires
        forall|k: int| 0 <= k < ev.len() ==> ev[k].0 != p,
    ensures
        lookup(ev, p) == Seq::<usize>::empty(),
    decreases ev.len(),
{
    if ev.len() > 0 {
        assert(ev[0].0 != p);
        lemma_lookup_missing(ev.drop_first(), p);
    }
}

/// Keys of the entries are distinct.
pub open spec fn unique_keys(ev: Seq<(Seq<char>, Seq<usize>)>) -> bool {
    forall|i: int, j: int| 0 <= i < j < ev.len() ==> #[trigger] ev[i].0 != #[trigger] ev[j].0
}

/// With distinct keys, `lookup` finds the entry with the key, if any.
proof fn lemma_lookup_unique(ev: Seq<(Seq<char>, Seq<usize>)>, p: Seq<char>)
    requires
        unique_keys(ev),
    ensures
        forall|e: int| 0 <= e < ev.len() && #[trigger] ev[e].0 == p ==> lookup(ev, p) == ev[e].1,
        (forall|k: int| 0 <= k < ev.len() ==> ev[k].0 != p) ==> lookup(ev, p)
            == Seq::<usize>::empty(),
{
    assert forall|e: int| 0 <= e < ev.len() && #[trigger] ev[e].0 == p implies lookup(ev, p)
        == ev[e].1 by {
        assert forall|k: int| 0 <= k < e implies ev[k].0 != p by {
            assert(ev[k].0 != ev[e].0);
        }
        lemma_lookup_found(ev, p, e);
    }
    if forall|k: int| 0 <= k < ev.len() ==> ev[k].0 != p {
        lemma_lookup_missing(ev, p);
    }
}

proof fn lemma_count_push(s: Seq<Seq<char>>, x: Seq<char>, p: Seq<char>)
    ensures
        count_of(s.push(x), p) == count_of(s, p) + if x == p {
            1nat
        } else {
            0nat
        },
{
    assert(s.push(x).drop_last() =~= s);
}

/// An index is listed under `p` exactly when that task names `p` as an input.
pub proof fn lemma_occurrences_contains(tasks: Seq<Task>, p: Seq<char>, t: usize)
    requires
        tasks.len() <= usize::MAX,
    ensures
        occurrences(tasks, p).contains(t) <==> (t < tasks.len() && count_of(input_keys(tasks[t as int]), p)
            > 0),
        forall|k: int|
            0 <= k < occurrences(tasks, p).len() ==> #[trigger] occurrences(tasks, p)[k]
                < tasks.len(),
    decreases tasks.len(),
{
    if tasks.len() > 0 {
        let prev = tasks.drop_last();
        lemma_occurrences_contains(prev, p, t);
        let last_id = (tasks.len() - 1) as usize;
        let r = repeat(last_id, count_of(input_keys(tasks.last()), p));
        let o = occurrences(tasks, p);
        assert(o == occurrences(prev, p) + r);
        if o.contains(t) {
            let k = choose|k: int| 0 <= k < o.len() && o[k] == t;
            if k < occurrences(prev, p).len() {
                assert(occurrences(prev, p)[k] == t);
                assert(tasks[t as int] == prev[t as int]);
            } else {
                assert(r[k - occurrences(prev, p).len()] == t);
            }
        }
        if t < tasks.len() && count_of(input_keys(tasks[t as int]), p) > 0 {
            if t < prev.len() {
                assert(tasks[t as int] == prev[t as int]);
                let k = choose|k: int|
                    0 <= k < occurrences(prev, p).len() && occurrences(prev, p)[k] == t;
                assert(o[k] == t);
            } else {
                assert(o[occurrences(prev, p).len() as int] == t);
            }
        }
        assert forall|k: int| 0 <= k < o.len() implies #[trigger] o[k] < tasks.len() by {
            if k < occurrences(prev, p).len() {
                assert(o[k] == occurrences(prev, p)[k]);
            }
        }
    }
}

impl TaskStore {
    /// The store is consistent: every path key has one entry, which lists the
    /// tasks with an input of that key, and every task names at least one
    /// path.
    pub closed spec fn wf(&self) -> bool {
        let ev = entries_view(self.entries@);
        &&& unique_keys(ev)
        &&& forall|p: Seq<char>| #[trigger] lookup(ev, p) == occurrences(self.tasks@, p)
        &&& forall|i: int| 0 <= i < ev.len() ==> #[trigger] ev[i].1.len() > 0
        &&& forall|t: int| 0 <= t < self.tasks@.len() ==> #[trigger] self.tasks@[t].inputs@.len() > 0
        &&& spelled(self.spellings@, ev)
    }

    /// The tasks listed under `p`, by index.
    pub closed spec fn listed(&self, p: Seq<char>) -> Seq<usize> {
        lookup(entries_view(self.entries@), p)
    }

    /// In a consistent store, the tasks listed under `p` are those that name
    /// it, once per time they name it, in the order they were added.
    pub proof fn lemma_listed(&self, p: Seq<char>)
        requires
            self.wf(),
        ensures
            self.listed(p) == occurrences(self@, p),
            forall|t: int| 0 <= t < self@.len() ==> #[trigger] self@[t].inputs@.len() > 0,
    {
    }

    /// An empty store.
    pub fn new() -> (res: TaskStore)
        ensures
            res.wf(),
            res@ == Seq::<Task>::empty(),
    {
        TaskStore { tasks: Vec::new(), entries: Vec::new(), spellings: Vec::new() }
    }

    /// Forgets every task.
    pub fn clear(&mut self)
        ensures
            final(self).wf(),
            final(self)@ == Seq::<Task>::empty(),
    {
        self.tasks.clear();
        self.entries.clear();
        self.spellings.clear();
    }

    /// Number of tasks.
    pub fn len(&self) -> (res: usize)
        ensures
            res == self@.len(),
    {
        self.tasks.len()
    }

    /// The task with index `id`.
    pub fn task(&self, id: usize) -> (res: &Task)
        requires
            id < self@.len(),
        ensures
            *res == self@[id as int],
    {
        &self.tasks[id]
    }

    /// Lists task `id` under `p`, once more.
    fn list_under(&mut self, p: &String, given: &String, id: usize)
        requires
            path_key(given@) == p@,
            spelled(old(self).spellings@, entries_view(old(self).entries@)),
            unique_keys(entries_view(old(self).entries@)),
            forall|i: int|
                0 <= i < old(self).entries@.len() ==> #[trigger] old(self).entries@[i].1@.len()
                    > 0,
        ensures
            final(self).tasks == old(self).tasks,
            spelled(final(self).spellings@, entries_view(final(self).entries@)),
            unique_keys(entries_view(final(self).entries@)),
            forall|i: int|
                0 <= i < final(self).entries@.len() ==> #[trigger] final(self).entries@[i].1@.len()
                    > 0,
            forall|q: Seq<char>|
                #[trigger] lookup(entries_view(final(self).entries@), q) == if q == p@ {
                    lookup(entries_view(old(self).entries@), q).push(id)
                } else {
                    lookup(entries_view(old(self).entries@), q)
                },
    {
        let ghost ev0 = entries_view(self.entries@);
        let n = self.entries.len();
        let mut e: usize = 0;
        while e < n && self.entries[e].0 != *p
            invariant
                n == self.entries@.len(),
                e <= n,
                ev0 == entries_view(self.entries@),
                forall|k: int| 0 <= k < e ==> #[trigger] ev0[k].0 != p@,
            decreases n - e,
        {
            e = e + 1;
        }
        if e < n {
            let (key, mut ids) = self.entries.remove(e);
            ids.push(id);
            self.entries.insert(e, (key, ids));
            let ghost ev1 = entries_view(self.entries@);
            proof {
                assert(ev1 =~= ev0.update(e as int, (p@, ev0[e as int].1.push(id))));
                assert forall|f: int| 0 <= f < ev1.len() implies path_key(
                    #[trigger] self.spellings@[f]@,
                ) == ev1[f].0 by {
                    assert(path_key(self.spellings@[f]@) == ev0[f].0);
                }
                assert forall|i: int, j: int| 0 <= i < j < ev1.len() implies #[trigger] ev1[i].0
                    != #[trigger] ev1[j].0 by {
                    assert(ev0[i].0 != ev0[j].0);
                }
                assert forall|q: Seq<char>| #[trigger] lookup(ev1, q) == if q == p@ {
                    lookup(ev0, q).push(id)
                } else {
                    lookup(ev0, q)
                } by {
                    lemma_lookup_unique(ev0, q);
                    lemma_lookup_unique(ev1, q);
                    if q == p@ {
                        assert(ev0[e as int].0 == q);
                        assert(ev1[e as int].0 == q);
                    } else if exists|k: int| 0 <= k < ev0.len() && ev0[k].0 == q {
                        let k = choose|k: int| 0 <= k < ev0.len() && ev0[k].0 == q;
                        assert(ev1[k] == ev0[k]);
                    } else {
                        assert forall|k: int| 0 <= k < ev1.len() implies ev1[k].0 != q by {
                            if k != e {
                                assert(ev1[k] == ev0[k]);
                            }
                        }
                    }
                }
                assert forall|i: int| 0 <= i < self.entries@.len() implies #[trigger] self.entries@[i].1@.len()
                    > 0 by {
                    if i != e {
                        assert(self.entries@[i] == old(self).entries@[i]);
                    }
                }
            }
        } else {
            let mut ids: Vec<usize> = Vec::new();
            ids.push(id);
            self.entries.push((p.clone(), ids));
            let ghost sp0 = self.spellings@;
            self.spellings.push(given.clone());
            let ghost ev1 = entries_view(self.entries@);
            proof {
                assert(ev1 =~= ev0.push((p@, seq![id])));
                assert forall|f: int| 0 <= f < ev1.len() implies path_key(
                    #[trigger] self.spellings@[f]@,
                ) == ev1[f].0 by {
                    if f < n {
                        assert(self.spellings@[f] == sp0[f]);
                        assert(path_key(sp0[f]@) == ev0[f].0);
                    }
                }
                assert forall|i: int, j: int| 0 <= i < j < ev1.len() implies #[trigger] ev1[i].0
                    != #[trigger] ev1[j].0 by {
                    if j < n {
                        assert(ev0[i].0 != ev0[j].0);
                    } else {
                        assert(ev1[i] == ev0[i]);
                    }
                }
                assert forall|q: Seq<char>| #[trigger] lookup(ev1, q) == if q == p@ {
                    lookup(ev0, q).push(id)
                } else {
                    lookup(ev0, q)
                } by {
                    lemma_lookup_unique(ev0, q);
                    lemma_lookup_unique(ev1, q);
                    if q == p@ {
                        assert(ev1[n as int].0 == q);
                        assert(seq![id] =~= Seq::<usize>::empty().push(id));
                    } else if exists|k: int| 0 <= k < ev0.len() && ev0[k].0 == q {
                        let k = choose|k: int| 0 <= k < ev0.len() && ev0[k].0 == q;
                        assert(ev1[k] == ev0[k]);
                    } else {
                        assert forall|k: int| 0 <= k < ev1.len() implies ev1[k].0 != q by {
                            if k < n {
                                assert(ev1[k] == ev0[k]);
                            }
                        }
                    }
                }
                assert forall|i: int| 0 <= i < self.entries@.len() implies #[trigger] self.entries@[i].1@.len()
                    > 0 by {
                    if i < n {
                        assert(self.entries@[i] == old(self).entries@[i]);
                    }
                }
            }
        }
    }

    /// Adds a task that runs `action` to make `outputs` from `inputs`: each
    /// path is resolved to the file it names where the file system can, and
    /// left as it is where it cannot. The task is kept once and listed under
    /// each of its inputs, or under the empty path when it has none.
    pub fn add(&mut self, action: Action, inputs: &[String], outputs: &[String])
        requires
            old(self).wf(),
            old(self)@.len() < usize::MAX,
        ensures
            final(self).wf(),
            added(old(self)@, final(self)@, (action, paths_view(inputs@), paths_view(outputs@))),
    {
        let input_outcomes = outcomes_of(inputs);
        let output_outcomes = outcomes_of(outputs);
        self.add_with_outcomes(action, inputs, outputs, &input_outcomes, &output_outcomes);
        proof {
            let t = self@.last();
            assert forall|i: int| 0 <= i < inputs@.len() implies kept_from(
                paths_view(inputs@)[i],
                #[trigger] t.inputs@[i]@,
            ) by {
                assert(resolves_to(inputs@[i]@, input_outcomes@[i]));
            }
            assert forall|i: int| 0 <= i < outputs@.len() implies kept_from(
                paths_view(outputs@)[i],
                #[trigger] t.outputs@[i]@,
            ) by {
                assert(resolves_to(outputs@[i]@, output_outcomes@[i]));
            }
        }
    }

    /// Adds a task as `add` does, given what resolving each input and each
    /// output gave: a path that resolved is kept as resolved, one that did
    /// not is kept as given.
    pub fn add_with_outcomes(
        &mut self,
        action: Action,
        inputs: &[String],
        outputs: &[String],
        input_outcomes: &[Option<String>],
        output_outcomes: &[Option<String>],
    )
        requires
            old(self).wf(),
            old(self)@.len() < usize::MAX,
            input_outcomes@.len() == inputs@.len(),
            output_outcomes@.len() == outputs@.len(),
        ensures
            final(self).wf(),
            final(self)@.len() == old(self)@.len() + 1,
            final(self)@.drop_last() == old(self)@,
            final(self)@.last().action == action,
            final(self)@.last().outputs@.len() == outputs@.len(),
            forall|i: int|
                0 <= i < outputs@.len() ==> #[trigger] final(self)@.last().outputs@[i]@ == kept_path(
                    outputs@[i]@,
                    output_outcomes@[i],
                ),
            inputs@.len() > 0 ==> final(self)@.last().inputs@.len() == inputs@.len(),
            forall|i: int|
                0 <= i < inputs@.len() ==> #[trigger] final(self)@.last().inputs@[i]@ == kept_path(
                    inputs@[i]@,
                    input_outcomes@[i],
                ),
            inputs@.len() == 0 ==> final(self)@.last().inputs@.len() == 1 && final(self)@.last().inputs@[0]@
                == Seq::<char>::empty(),
    {
        let ins = kept_paths(inputs, input_outcomes);
        let outs = kept_paths(outputs, output_outcomes);
        self.add_resolved(action, ins, outs);
    }

    /// Adds a task whose paths are taken as they are: it is kept once and
    /// listed under each of its inputs, or under the empty path when it has
    /// none.
    pub fn add_resolved(&mut self, action: Action, inputs: Vec<String>, outputs: Vec<String>)
        requires
            old(self).wf(),
            old(self)@.len() < usize::MAX,
        ensures
            final(self).wf(),
            final(self)@.len() == old(self)@.len() + 1,
            final(self)@.drop_last() == old(self)@,
            final(self)@.last().action == action,
            final(self)@.last().outputs == outputs,
            inputs@.len() > 0 ==> final(self)@.last().inputs == inputs,
            inputs@.len() == 0 ==> final(self)@.last().inputs@.len() == 1 && final(self)@.last().inputs@[0]@
                == Seq::<char>::empty(),
    {
        let mut inputs = inputs;
        if inputs.len() == 0 {
            inputs.push(String::new());
        }
        let id = self.tasks.len();
        let ghost old_tasks = self.tasks@;
        self.tasks.push(Task::new(action, inputs, outputs));
        let ghost new_tasks = self.tasks@;
        assert(self.tasks@[id as int].inputs@.len() > 0);
        let ghost ins = input_keys(self.tasks@[id as int]);
        assert(new_tasks.drop_last() =~= old_tasks);
        let n = self.tasks[id].inputs.len();
        let mut m: usize = 0;
        assert forall|i: int| 0 <= i < self.entries@.len() implies #[trigger] self.entries@[i].1@.len()
            > 0 by {
            assert(entries_view(self.entries@)[i].1 == self.entries@[i].1@);
        }
        assert(ins.subrange(0, 0) =~= Seq::<Seq<char>>::empty());
        while m < n
            invariant
                n == ins.len(),
                m <= n,
                id == old_tasks.len(),
                self.tasks@ == new_tasks,
                new_tasks.len() == id + 1,
                new_tasks.drop_last() == old_tasks,
                ins == input_keys(new_tasks[id as int]),
                new_tasks[id as int].inputs@.len() > 0,
                spelled(self.spellings@, entries_view(self.entries@)),
                unique_keys(entries_view(self.entries@)),
                forall|i: int|
                    0 <= i < self.entries@.len() ==> #[trigger] self.entries@[i].1@.len() > 0,
                forall|q: Seq<char>|
                    #[trigger] lookup(entries_view(self.entries@), q) == occurrences(old_tasks, q)
                        + repeat(id, count_of(ins.subrange(0, m as int), q)),
            decreases n - m,
        {
            let ghost before = entries_view(self.entries@);
            let given = self.tasks[id].inputs[m].clone();
            let p = path_key_of(given.as_str());
            self.list_under(&p, &given, id);
            proof {
                assert(ins[m as int] == p@);
                assert(ins.subrange(0, m + 1) =~= ins.subrange(0, m as int).push(p@));
                assert forall|q: Seq<char>| #[trigger] lookup(entries_view(self.entries@), q)
                    == occurrences(old_tasks, q) + repeat(id, count_of(ins.subrange(0, m + 1), q)) by {
                    lemma_count_push(ins.subrange(0, m as int), p@, q);
                    assert(lookup(before, q) == occurrences(old_tasks, q) + repeat(
                        id,
                        count_of(ins.subrange(0, m as int), q),
                    ));
                    if q == p@ {
                        assert(occurrences(old_tasks, q) + repeat(
                            id,
                            count_of(ins.subrange(0, m + 1), q),
                        ) =~= (occurrences(old_tasks, q) + repeat(
                            id,
                            count_of(ins.subrange(0, m as int), q),
                        )).push(id));
                    }
                }
            }
            m = m + 1;
        }
        proof {
            assert(ins.subrange(0, n as int) =~= ins);
            assert forall|q: Seq<char>| #[trigger] lookup(entries_view(self.entries@), q)
                == occurrences(self.tasks@, q) by {
                assert(input_keys(new_tasks.last()) == ins);
            }
            assert forall|t: int| 0 <= t < self.tasks@.len() implies #[trigger] self.tasks@[t].inputs@.len()
                > 0 by {
                if t < id {
                    assert(self.tasks@[t] == old_tasks[t]);
                    assert(old_tasks == old(self).tasks@);
                    assert(old(self).tasks@[t].inputs@.len() > 0);
                } else {
                    assert(self.tasks@[t] == new_tasks[id as int]);
                }
            }
        }
    }

    /// The tasks listed under `input`, by index, in the order they were
    /// added: those with an input that is the same path as `input`, however
    /// either is written.
    pub fn tasks_for(&self, input: &String) -> (res: Vec<usize>)
        requires
            self.wf(),
        ensures
            res@ == occurrences(self@, path_key(input@)),
    {
        let key = path_key_of(input.as_str());
        let ghost ev = entries_view(self.entries@);
        proof {
            lemma_lookup_unique(ev, key@);
        }
        let n = self.entries.len();
        let mut e: usize = 0;
        while e < n
            invariant
                self.wf(),
                key@ == path_key(input@),
                lookup(ev, key@) == occurrences(self.tasks@, key@),
                forall|e: int| 0 <= e < ev.len() && #[trigger] ev[e].0 == key@ ==> lookup(ev, key@) == ev[e].1,
                n == self.entries@.len(),
                ev == entries_view(self.entries@),
                forall|k: int| 0 <= k < e ==> #[trigger] ev[k].0 != key@,
            decreases n - e,
        {
            if self.entries[e].0 == key {
                assert(ev[e as int].0 == key@);
                let r = self.entries[e].1.clone();
                assert(r@ =~= self.entries@[e as int].1@);
                assert(ev[e as int].1 == self.entries@[e as int].1@);
                assert(lookup(ev, key@) == occurrences(self.tasks@, key@));
                return r;
            }
            e = e + 1;
        }
        Vec::new()
    }

    /// Adds the planned tasks, in order, as `add` does.
    pub fn add_all(&mut self, plan: &Vec<Task>)
        requires
            old(self).wf(),
            old(self)@.len() + plan@.len() <= usize::MAX,
        ensures
            final(self).wf(),
            grown_by(old(self)@, final(self)@, plan_view(plan@)),
    {
        let ghost start = self@;
        let n = plan.len();
        assert(self@.subrange(0, start.len() as int) =~= start);
        for k in 0..n
            invariant
                n == plan@.len(),
                self.wf(),
                start.len() + n <= usize::MAX,
                self@.len() == start.len() + k,
                self@.subrange(0, start.len() as int) == start,
                forall|j: int|
                    0 <= j < k ==> added(
                        self@.subrange(0, start.len() + j),
                        self@.subrange(0, start.len() + j + 1),
                        #[trigger] plan_view(plan@)[j],
                    ),
        {
            let ghost before = self@;
            self.add(plan[k].action, plan[k].inputs.as_slice(), plan[k].outputs.as_slice());
            proof {
                assert(self@.drop_last() == before);
                assert(plan_view(plan@)[k as int] == plan@[k as int]@);
                assert(self@.subrange(0, start.len() as int) =~= before.subrange(
                    0,
                    start.len() as int,
                ));
                assert forall|j: int| 0 <= j < k + 1 implies added(
                    self@.subrange(0, start.len() + j),
                    self@.subrange(0, start.len() + j + 1),
                    #[trigger] plan_view(plan@)[j],
                ) by {
                    if j < k {
                        assert(self@.subrange(0, start.len() + j) =~= before.subrange(
                            0,
                            start.len() + j,
                        ));
                        assert(self@.subrange(0, start.len() + j + 1) =~= before.subrange(
                            0,
                            start.len() + j + 1,
                        ));
                    } else {
                        assert(self@.subrange(0, start.len() + j) =~= before);
                        assert(self@.subrange(0, start.len() + j + 1) =~= self@);
                    }
                }
            }
        }
    }

    /// Every task once, with a path it is listed under, as that path was
    /// first given to the store: the work that running all tasks does, in no
    /// particular order.
    pub fn tasks_to_run(&self) -> (res: Vec<(String, usize)>)
        requires
            self.wf(),
        ensures
            res@.len() == self@.len(),
            forall|i: int, j: int| 0 <= i < j < res@.len() ==> #[trigger] res@[i].1 != #[trigger] res@[j].1,
            forall|t: int| 0 <= t < self@.len() ==> #[trigger] lists(res@, t),
            forall|i: int|
                0 <= i < res@.len() ==> #[trigger] res@[i].1 < self@.len() && count_of(
                    input_keys(self@[res@[i].1 as int]),
                    path_key(res@[i].0@),
                ) > 0,
    {
        let ntasks = self.tasks.len();
        let ghost ev = entries_view(self.entries@);
        let mut seen: Vec<bool> = Vec::new();
        for k in 0..ntasks
            invariant
                seen@.len() == k,
                forall|t: int| 0 <= t < k ==> !#[trigger] seen@[t],
        {
            seen.push(false);
        }
        let mut res: Vec<(String, usize)> = Vec::new();
        let n = self.entries.len();
        for e in 0..n
            invariant
                self.wf(),
                n == self.entries@.len(),
                ntasks == self.tasks@.len(),
                ev == entries_view(self.entries@),
                seen@.len() == ntasks,
                forall|t: int|
                    0 <= t < ntasks ==> (seen@[t] <==> #[trigger] lists(res@, t)),
                forall|i: int, j: int|
                    0 <= i < j < res@.len() ==> #[trigger] res@[i].1 != #[trigger] res@[j].1,
                forall|i: int|
                    0 <= i < res@.len() ==> #[trigger] res@[i].1 < ntasks && count_of(
                        input_keys(self.tasks@[res@[i].1 as int]),
                        path_key(res@[i].0@),
                    ) > 0,
                forall|f: int, t: usize|
                    0 <= f < e && #[trigger] ev[f].1.contains(t) ==> t < ntasks && seen@[t as int],
        {
            let ids = &self.entries[e].1;
            let m = ids.len();
            let ghost key = ev[e as int].0;
            proof {
                lemma_lookup_unique(ev, key);
                assert(ev[e as int].1 == ids@);
                assert(lookup(ev, key) == ids@);
                assert(self.tasks@.len() <= usize::MAX);
            }
            for j in 0..m
                invariant
                    self.wf(),
                    n == self.entries@.len(),
                    e < n,
                    ntasks == self.tasks@.len(),
                    ev == entries_view(self.entries@),
                    ids@ == ev[e as int].1,
                    key == ev[e as int].0,
                    ids@ == occurrences(self.tasks@, key),
                    m == ids@.len(),
                    seen@.len() == ntasks,
                    forall|t: int|
                        0 <= t < ntasks ==> (seen@[t] <==> #[trigger] lists(res@, t)),
                    forall|i: int, j: int|
                        0 <= i < j < res@.len() ==> #[trigger] res@[i].1 != #[trigger] res@[j].1,
                    forall|i: int|
                        0 <= i < res@.len() ==> #[trigger] res@[i].1 < ntasks && count_of(
                            input_keys(self.tasks@[res@[i].1 as int]),
                            path_key(res@[i].0@),
                        ) > 0,
                    forall|f: int, t: usize|
                        0 <= f < e && #[trigger] ev[f].1.contains(t) ==> t < ntasks && seen@[t as int],
                    forall|k: int| 0 <= k < j ==> #[trigger] ids@[k] < ntasks && seen@[ids@[k] as int],
            {
                let t = ids[j];
                proof {
                    assert(ids@.contains(t));
                    lemma_occurrences_contains(self.tasks@, key, t);
                }
                if !seen[t] {
                    let ghost old_res = res@;
                    seen.set(t, true);
                    let path = self.spellings[e].clone();
                    res.push((path, t));
                    proof {
                        assert(res@[old_res.len() as int].1 == t);
                        assert forall|u: int| 0 <= u < ntasks implies (seen@[u] <==> #[trigger] lists(res@, u)) by {
                            if u != t {
                                if lists(res@, u) {
                                    let i = choose|i: int| 0 <= i < res@.len() && res@[i].1 == u;
                                    assert(i < old_res.len());
                                    assert(res@[i] == old_res[i]);
                                    assert(lists(old_res, u));
                                }
                                if lists(old_res, u) {
                                    let i = choose|i: int| 0 <= i < old_res.len() && old_res[i].1 == u;
                                    assert(res@[i] == old_res[i]);
                                    assert(lists(res@, u));
                                }
                            } else {
                                assert(lists(res@, u));
                            }
                        }
                        assert forall|a: int, b: int| 0 <= a < b < res@.len() implies #[trigger] res@[a].1
                            != #[trigger] res@[b].1 by {
                            if b == old_res.len() {
                                assert(res@[a] == old_res[a]);
                                assert(!lists(old_res, t as int));
                            } else {
                                assert(res@[a] == old_res[a] && res@[b] == old_res[b]);
                            }
                        }
                        assert forall|i: int| 0 <= i < res@.len() implies #[trigger] res@[i].1 < ntasks
                            && count_of(input_keys(self.tasks@[res@[i].1 as int]), path_key(res@[i].0@)) > 0 by {
                            if i < old_res.len() {
                                assert(res@[i] == old_res[i]);
                            } else {
                                assert(path_key(res@[i].0@) == key);
                            }
                        }
                        assert forall|f: int, u: usize| 0 <= f < e && #[trigger] ev[f].1.contains(u) implies u
                            < ntasks && seen@[u as int] by {}
                    }
                }
            }
            proof {
                assert forall|f: int, t: usize| 0 <= f < e + 1 && #[trigger] ev[f].1.contains(t) implies t
                    < ntasks && seen@[t as int] by {
                    if f == e {
                        let k = choose|k: int| 0 <= k < ids@.len() && ids@[k] == t;
                        assert(ids@[k] < ntasks && seen@[ids@[k] as int]);
                    }
                }
            }
        }
        proof {
            assert forall|t: int| 0 <= t < ntasks implies #[trigger] lists(res@, t) by {
                let tu = t as usize;
                let q = input_keys(self.tasks@[t])[0];
                assert(self.tasks@[t].inputs@.len() > 0);
                lemma_count_first(input_keys(self.tasks@[t]));
                lemma_occurrences_contains(self.tasks@, q, tu);
                lemma_lookup_unique(ev, q);
                let o = occurrences(self.tasks@, q);
                assert(o.contains(tu));
                if forall|k: int| 0 <= k < ev.len() ==> ev[k].0 != q {
                    assert(o.len() == 0);
                } else {
                    let f = choose|f: int| 0 <= f < ev.len() && ev[f].0 == q;
                    assert(ev[f].1.contains(tu));
                    assert(seen@[t]);
                }
            }
            assert forall|i: int, j: int| 0 <= i < j < res@.len() implies #[trigger] res@[i].1 != #[trigger] res@[j].1 by {}
            lemma_distinct_complete_len(res@, ntasks as int);
        }
        res
    }
}

/// `r` holds the index `t`.
pub open spec fn lists(r: Seq<(String, usize)>, t: int) -> bool {
    exists|i: int| 0 <= i < r.len() && r[i].1 == t
}

/// The first element of a non-empty sequence occurs in it.
proof fn lemma_count_first(s: Seq<Seq<char>>)
    requires
        s.len() > 0,
    ensures
        count_of(s, s[0]) > 0,
    decreases s.len(),
{
    if s.len() > 1 {
        lemma_count_first(s.drop_last());
        assert(s.drop_last()[0] == s[0]);
    }
}

/// A list of distinct indices below `n` that holds each of them has `n`
/// elements.
proof fn lemma_distinct_complete_len(r: Seq<(String, usize)>, n: int)
    requires
        0 <= n,
        forall|i: int, j: int| 0 <= i < j < r.len() ==> #[trigger] r[i].1 != #[trigger] r[j].1,
        forall|i: int| 0 <= i < r.len() ==> #[trigger] r[i].1 < n,
        forall|t: int| 0 <= t < n ==> #[trigger] lists(r, t),
    ensures
        r.len() == n,
{
    let ids = r.map_values(|x: (String, usize)| x.1 as int);
    let s = ids.to_set();
    assert(ids.no_duplicates()) by {
        assert forall|i: int, j: int| 0 <= i < ids.len() && 0 <= j < ids.len() && i != j implies ids[i]
            != ids[j] by {
            if i < j {
                assert(r[i].1 != r[j].1);
            } else {
                assert(r[j].1 != r[i].1);
            }
        }
    }
    ids.unique_seq_to_set();
    assert(s =~= vstd::set_lib::set_int_range(0, n)) by {
        assert forall|t: int| s.contains(t) <==> 0 <= t < n by {
            if 0 <= t < n {
                assert(lists(r, t));
                let i = choose|i: int| 0 <= i < r.len() && r[i].1 == t;
                assert(ids[i] == t);
            }
            if s.contains(t) {
                let i = choose|i: int| 0 <= i < ids.len() && ids[i] == t;
                assert(r[i].1 < n);
            }
        }
    }
    vstd::set_lib::lemma_int_range(0, n);
}

} // verus!