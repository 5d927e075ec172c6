//! Bounded parallel application of a task to the items of a list, and the splitting of
//! lists into chunks.
//!
//! The workers share a `Pool`: each claims the next item, runs the task on it and reports
//! the result. The results come out in the order of the items, and where the task fails
//! the failure of the first item on which it fails comes out, whatever the schedule.

use vstd::prelude::*;

use crate::text;
use crate::value;
use crate::value::NewTree;
use crate::value::NewValue;
use crate::value::Number;
use crate::value::SynData;
use crate::value::SynValue;
use crate::value::TaskData;

verus! {

/// The number of workers where none is asked for.
pub const DEFAULT_WORKERS: usize = 64;

// ---------------------------------------------------------------------------
// The pool
// ---------------------------------------------------------------------------

/// What the workers share.
pub struct Pool<T, E> {
    next: usize,
    aborted: bool,
    error: Option<(usize, E)>,
    results: Vec<Option<T>>,
}

/// The mathematical content of a pool: the first item that nobody has claimed, whether
/// claiming has stopped, the failure of the lowest item that has failed, and the results.
#[verifier::ext_equal]
pub struct PoolView<T, E> {
    pub next: int,
    pub aborted: bool,
    pub error: Option<(int, E)>,
    pub results: Seq<Option<T>>,
}

impl<T, E> View for Pool<T, E> {
    type V = PoolView<T, E>;

    closed spec fn view(&self) -> PoolView<T, E> {
        PoolView {
            next: self.next as int,
            aborted: self.aborted,
            error: match self.error {
                Some((i, e)) => Some((i as int, e)),
                None => None,
            },
            results: self.results@,
        }
    }
}

/// The pool before anything is claimed.
pub open spec fn fresh<T, E>(n: nat) -> PoolView<T, E> {
    PoolView {
        next: 0,
        aborted: false,
        error: None,
        results: Seq::new(n, |i: int| None),
    }
}

/// Whether an item can be claimed.
pub open spec fn can_claim<T, E>(p: PoolView<T, E>) -> bool {
    !p.aborted && p.next < p.results.len()
}

/// The pool after a claim.
pub open spec fn after_claim<T, E>(p: PoolView<T, E>) -> PoolView<T, E> {
    if can_claim(p) {
        PoolView { next: p.next + 1, ..p }
    } else {
        p
    }
}

/// The pool after item `i` was reported.
pub open spec fn after_report<T, E>(p: PoolView<T, E>, i: int, r: Result<T, E>) -> PoolView<T, E> {
    match r {
        Ok(v) => PoolView { results: p.results.update(i, Some(v)), ..p },
        Err(e) => PoolView {
            aborted: true,
            error: match p.error {
                Some((j, first)) => if i < j {
                    Some((i, e))
                } else {
                    Some((j, first))
                },
                None => Some((i, e)),
            },
            ..p
        },
    }
}

/// What the pool gives in the end: the failure of the lowest item that failed, or the
/// results in the order of the items, with a gap where an item was never reported.
pub open spec fn outcome<T, E>(p: PoolView<T, E>) -> Result<Seq<Option<T>>, E> {
    match p.error {
        Some((_, e)) => Err(e),
        None => Ok(p.results),
    }
}

impl<T, E> Pool<T, E> {
    /// The number of items.
    pub open spec fn size(&self) -> nat {
        self@.results.len()
    }

    /// A pool for `n` items.
    pub fn new(n: usize) -> (p: Self)
        ensures
            p@ == fresh::<T, E>(n as nat),
    {
        let mut results: Vec<Option<T>> = Vec::new();
        let mut i: usize = 0;
        while i < n
            invariant
                i <= n,
                results@.len() == i,
                forall|j: int| 0 <= j < i ==> #[trigger] results@[j] == None::<T>,
            decreases n - i,
        {
            results.push(None);
            i = i + 1;
        }
        let p = Pool { next: 0, aborted: false, error: None, results };
        assert(p@ =~= fresh::<T, E>(n as nat));
        p
    }

    /// Claims the next item, unless there is none or a failure has stopped the claiming.
    pub fn claim(&mut self) -> (r: Option<usize>)
        ensures
            final(self)@ == after_claim(old(self)@),
            r is Some == can_claim(old(self)@),
            r matches Some(i) ==> i == old(self)@.next && i < old(self).size(),
    {
        if self.aborted || self.next >= self.results.len() {
            return None;
        }
        let i = self.next;
        self.next = i + 1;
        Some(i)
    }

    /// Reports what became of item `i`.
    pub fn report(&mut self, i: usize, r: Result<T, E>)
        requires
            i < old(self).size(),
        ensures
            final(self)@ == after_report(old(self)@, i as int, r),
    {
        match r {
            Ok(v) => {
                self.results.set(i, Some(v));
            },
            Err(e) => {
                let lower = match &self.error {
                    Some((j, _)) => i < *j,
                    None => true,
                };
                if lower {
                    self.error = Some((i, e));
                }
                self.aborted = true;
            },
        }
    }

    /// What came of it all.
    pub fn finish(self) -> (r: Result<Vec<Option<T>>, E>)
        ensures
            match outcome(self@) {
                Ok(results) => r matches Ok(v) && v@ == results,
                Err(e) => r == Err::<Vec<Option<T>>, E>(e),
            },
    {
        match self.error {
            Some((_, e)) => Err(e),
            None => Ok(self.results),
        }
    }
}

/// The number of workers for `n` items where so many are asked for.
pub open spec fn workers_for(limit: int, n: int) -> int {
    let asked = if limit == 0 {
        1
    } else {
        limit
    };
    if asked < n {
        asked
    } else {
        n
    }
}

/// The number of workers for `n` items: as many as asked for, one at least, and no more
/// than there are items.
pub fn worker_count(limit: usize, n: usize) -> (r: usize)
    ensures
        r == workers_for(limit as int, n as int),
        limit == 0 && n > 0 ==> r == 1,
        limit > 0 && limit <= n ==> r == limit,
        limit > n ==> r == n,
        n == 0 ==> r == 0,
{
    let asked: usize = if limit == 0 {
        1
    } else {
        limit
    };
    if asked < n {
        asked
    } else {
        n
    }
}

// ---------------------------------------------------------------------------
// Any schedule gives what applying the task in order gives
// ---------------------------------------------------------------------------

/// What a worker does to the pool.
pub enum Move<T, E> {
    Claim,
    Report(int, Result<T, E>),
}

/// A pool with the items that are claimed and not yet reported.
#[verifier::ext_equal]
pub struct Running<T, E> {
    pub pool: PoolView<T, E>,
    pub busy: Set<int>,
}

/// The state after the first `k` moves.
pub open spec fn played<T, E>(n: nat, moves: Seq<Move<T, E>>, k: nat) -> Running<T, E>
    decreases k,
{
    if k == 0 {
        Running { pool: fresh(n), busy: Set::empty() }
    } else {
        let s = played(n, moves, (k - 1) as nat);
        match moves[k - 1] {
            Move::Claim => Running {
                pool: after_claim(s.pool),
                busy: if can_claim(s.pool) {
                    s.busy.insert(s.pool.next)
                } else {
                    s.busy
                },
            },
            Move::Report(i, r) => Running {
                pool: after_report(s.pool, i, r),
                busy: s.busy.remove(i),
            },
        }
    }
}

/// Every report is of an item that is being worked on, and says what the task gives for it.
pub open spec fn schedule<T, E>(
    f: spec_fn(int) -> Result<T, E>,
    n: nat,
    moves: Seq<Move<T, E>>,
) -> bool {
    forall|k: nat|
        #![trigger played(n, moves, k)]
        k < moves.len() ==> (moves[k as int] matches Move::Report(i, r) ==> played(
            n,
            moves,
            k,
        ).busy.contains(i) && r == f(i))
}

/// Applying the task to the first `k` items in order, up to the first failure.
pub open spec fn in_turn<T, E>(f: spec_fn(int) -> Result<T, E>, k: nat) -> Result<Seq<T>, E>
    decreases k,
{
    if k == 0 {
        Ok(seq![])
    } else {
        match in_turn(f, (k - 1) as nat) {
            Ok(vs) => match f(k - 1) {
                Ok(v) => Ok(vs.push(v)),
                Err(e) => Err(e),
            },
            Err(e) => Err(e),
        }
    }
}

spec fn consistent<T, E>(f: spec_fn(int) -> Result<T, E>, n: nat, s: Running<T, E>) -> bool {
    &&& s.pool.results.len() == n
    &&& 0 <= s.pool.next <= n
    &&& s.pool.aborted == (s.pool.error is Some)
    &&& forall|i: int| #[trigger] s.busy.contains(i) ==> 0 <= i < s.pool.next
    &&& s.pool.error matches Some((j, e)) ==> {
        &&& 0 <= j < s.pool.next
        &&& f(j) == Err::<T, E>(e)
        &&& !s.busy.contains(j)
    }
    &&& forall|i: int|
        0 <= i < s.pool.next && !#[trigger] s.busy.contains(i) ==> match f(i) {
            Ok(v) => s.pool.results[i] == Some(v),
            Err(_) => s.pool.error matches Some((j, _)) && j <= i,
        }
}

proof fn lemma_consistent<T, E>(
    f: spec_fn(int) -> Result<T, E>,
    n: nat,
    moves: Seq<Move<T, E>>,
    k: nat,
)
    requires
        schedule(f, n, moves),
        k <= moves.len(),
    ensures
        consistent(f, n, played(n, moves, k)),
    decreases k,
{
    if k > 0 {
        let was = played(n, moves, (k - 1) as nat);
        let now = played(n, moves, k);
        lemma_consistent(f, n, moves, (k - 1) as nat);
        match moves[k - 1] {
            Move::Claim => {
                assert forall|i: int|
                    0 <= i < now.pool.next && !#[trigger] now.busy.contains(i) implies match f(i) {
                    Ok(v) => now.pool.results[i] == Some(v),
                    Err(_) => now.pool.error matches Some((j, _)) && j <= i,
                } by {
                    assert(!was.busy.contains(i));
                }
            },
            Move::Report(i, r) => {
                assert(was.busy.contains(i) && r == f(i));
                assert forall|x: int|
                    0 <= x < now.pool.next && !#[trigger] now.busy.contains(x) implies match f(x) {
                    Ok(v) => now.pool.results[x] == Some(v),
                    Err(_) => now.pool.error matches Some((j, _)) && j <= x,
                } by {
                    if x != i {
                        assert(!was.busy.contains(x));
                    }
                }
            },
        }
    }
}

proof fn lemma_in_turn_fails<T, E>(f: spec_fn(int) -> Result<T, E>, j: int, k: nat)
    requires
        0 <= j < k,
        f(j) is Err,
        forall|i: int| 0 <= i < j ==> #[trigger] f(i) is Ok,
    ensures
        in_turn(f, k) is Err,
        Err::<T, E>(in_turn(f, k)->Err_0) == f(j),
    decreases k,
{
    if j < k - 1 {
        lemma_in_turn_fails(f, j, (k - 1) as nat);
    } else {
        lemma_in_turn_succeeds(f, j as nat);
    }
}

proof fn lemma_in_turn_succeeds<T, E>(f: spec_fn(int) -> Result<T, E>, k: nat)
    requires
        forall|i: int| 0 <= i < k ==> #[trigger] f(i) is Ok,
    ensures
        in_turn(f, k) matches Ok(vs) && vs.len() == k && forall|i: int|
            0 <= i < k ==> Ok::<T, E>(#[trigger] vs[i]) == f(i),
    decreases k,
{
    if k > 0 {
        lemma_in_turn_succeeds(f, (k - 1) as nat);
        assert(f(k - 1) is Ok);
    }
}

/// However the workers' claims and reports interleave, once no item is left to claim and
/// none is being worked on the pool gives what applying the task in order gives: the
/// results in the order of the items, or the failure of the first item that fails.
pub proof fn law_parallel_is_sequential<T, E>(
    f: spec_fn(int) -> Result<T, E>,
    n: nat,
    moves: Seq<Move<T, E>>,
)
    requires
        schedule(f, n, moves),
        !can_claim(played(n, moves, moves.len()).pool),
        played(n, moves, moves.len()).busy == Set::<int>::empty(),
    ensures
        match in_turn(f, n) {
            Ok(vs) => outcome(played(n, moves, moves.len()).pool) == Ok::<Seq<Option<T>>, E>(
                vs.map_values(|v: T| Some(v)),
            ),
            Err(e) => outcome(played(n, moves, moves.len()).pool) == Err::<Seq<Option<T>>, E>(e),
        },
{
    let s = played(n, moves, moves.len());
    lemma_consistent(f, n, moves, moves.len());
    match s.pool.error {
        Some((j, e)) => {
            assert forall|i: int| 0 <= i < j implies #[trigger] f(i) is Ok by {
                assert(!s.busy.contains(i));
            }
            lemma_in_turn_fails(f, j, n);
        },
        None => {
            assert forall|i: int| 0 <= i < n implies #[trigger] f(i) is Ok by {
                assert(!s.busy.contains(i));
            }
            lemma_in_turn_succeeds(f, n);
            let vs = in_turn(f, n)->Ok_0;
            assert(s.pool.results =~= vs.map_values(|v: T| Some(v))) by {
                assert forall|i: int| 0 <= i < n implies #[trigger] s.pool.results[i] == Some(
                    vs[i],
                ) by {
                    assert(!s.busy.contains(i));
                    assert(Ok::<T, E>(vs[i]) == f(i));
                }
            }
        },
    }
}

/// A failure stops the claiming: no item is claimed any more.
pub proof fn law_failure_stops_the_claiming<T, E>(p: PoolView<T, E>, i: int, e: E)
    ensures
        !can_claim(after_report(p, i, Err(e))),
        after_claim(after_report(p, i, Err(e))) == after_report(p, i, Err(e)),
{
}

// ---------------------------------------------------------------------------
// Errors of a worker
// ---------------------------------------------------------------------------

/// How the run of a task ends without a value.
pub enum Control<E> {
    Error(E),
    Give,
    Stop,
}

/// An error: one that was raised, or a new one with that message.
pub enum Fault<E> {
    Raised(E),
    Message(&'static str),
}

/// The error that a run without a value amounts to. A raised error stays as it is.
pub fn control_to_error<E>(c: Control<E>) -> (r: Fault<E>)
    ensures
        match c {
            Control::Error(e) => r == Fault::Raised(e),
            Control::Give => r matches Fault::Message(m) && m@ == "'give' used outside of a task"@,
            Control::Stop => r matches Fault::Message(m) && m@ == "'stop' used outside of a loop"@,
        },
{
    match c {
        Control::Error(e) => Fault::Raised(e),
        Control::Give => Fault::Message("'give' used outside of a task"),
        Control::Stop => Fault::Message("'stop' used outside of a loop"),
    }
}

// ---------------------------------------------------------------------------
// Arguments of parallel_map
// ---------------------------------------------------------------------------

/// The task that is applied: one of the user's, or a builtin by its name.
pub enum TaskSnapshot {
    User(TaskData),
    Builtin(String),
}

/// What `parallel_map` is to do.
pub struct Plan {
    pub task: TaskSnapshot,
    pub items: Vec<SynValue>,
    pub limit: usize,
}

/// The value is a task of the user or a builtin.
pub open spec fn is_task(v: SynValue) -> bool {
    v.data is Task || v.data is Builtin
}

/// The number of workers that an argument asks for: 64 where it asks for none.
pub open spec fn asked_workers(arg: Option<SynValue>) -> int {
    match arg {
        Some(v) => match v.data {
            SynData::Number(n) => if value::number_i64(n) <= 0 {
                DEFAULT_WORKERS as int
            } else {
                value::number_i64(n) as int
            },
            _ => DEFAULT_WORKERS as int,
        },
        None => DEFAULT_WORKERS as int,
    }
}

/// Why a call is refused.
pub open spec fn plan_refusal(args: Seq<SynValue>) -> Option<Seq<char>> {
    if args.len() == 0 || !is_task(args[0]) {
        Some("parallel_map: first argument must be a task"@)
    } else if args.len() < 2 || !(args[1].data is List) {
        Some("parallel_map: second argument must be a list"@)
    } else {
        None
    }
}

/// A machine integer as a size, capped where it is too large for one.
fn size_of(n: i64) -> (r: usize)
    requires
        n > 0,
    ensures
        n <= usize::MAX ==> r == n,
        n > usize::MAX ==> r == usize::MAX,
{
    let wide = n as u64;
    if wide > usize::MAX as u64 {
        usize::MAX
    } else {
        wide as usize
    }
}

/// Reads the arguments of `parallel_map(task, list, limit?)`.
pub fn plan_parallel_map(args: Vec<SynValue>) -> (r: Result<Plan, &'static str>)
    ensures
        match plan_refusal(args@) {
            Some(why) => r matches Err(m) && m@ == why,
            None => {
                &&& r matches Ok(p)
                &&& match args@[0].data {
                    SynData::Task(t) => p.task == TaskSnapshot::User(t),
                    SynData::Builtin(name) => p.task == TaskSnapshot::Builtin(name),
                    _ => false,
                }
                &&& p.items == args@[1].data->List_0
                &&& ({
                    let asked = asked_workers(
                        if args@.len() > 2 {
                            Some(args@[2])
                        } else {
                            None
                        },
                    );
                    p.limit == if asked <= usize::MAX {
                        asked
                    } else {
                        usize::MAX as int
                    }
                })
            },
        },
{
    let mut args = args;
    let ghost given = args@;
    if args.len() == 0 || !(matches!(args[0].data, SynData::Task(_)) || matches!(
        args[0].data,
        SynData::Builtin(_)
    )) {
        return Err("parallel_map: first argument must be a task");
    }
    if args.len() < 2 || !matches!(args[1].data, SynData::List(_)) {
        return Err("parallel_map: second argument must be a list");
    }
    let mut limit: usize = DEFAULT_WORKERS;
    if args.len() > 2 {
        if let SynData::Number(n) = &args[2].data {
            let v = value::number_to_i64(n);
            if v > 0 {
                limit = size_of(v);
            }
        }
    }
    let list = args.remove(1);
    let task = args.remove(0);
    assert(list == given[1] && task == given[0]);
    let items = match list.data {
        SynData::List(items) => items,
        _ => Vec::new(),
    };
    let snapshot = match task.data {
        SynData::Task(t) => TaskSnapshot::User(t),
        SynData::Builtin(name) => TaskSnapshot::Builtin(name),
        _ => TaskSnapshot::Builtin(String::new()),
    };
    Ok(Plan { task: snapshot, items, limit })
}

// ---------------------------------------------------------------------------
// chunk
// ---------------------------------------------------------------------------

/// `items` cut into pieces of `size`, of which the last may be shorter.
pub open spec fn chunks<T>(items: Seq<T>, size: int) -> Seq<Seq<T>>
    decreases items.len(),
{
    if items.len() == 0 || size <= 0 {
        seq![]
    } else if items.len() <= size {
        seq![items]
    } else {
        seq![items.take(size)] + chunks(items.skip(size), size)
    }
}

/// A list of lists as a new value.
pub open spec fn list_of_lists(parts: Seq<Seq<SynValue>>) -> NewTree {
    NewTree::List(
        parts.map_values(
            |part: Seq<SynValue>|
                NewTree::List(part.map_values(|v: SynValue| NewTree::Given(v))),
        ),
    )
}

/// What `chunk` gives or why it refuses.
pub open spec fn chunk_result(args: Seq<SynValue>) -> Result<NewTree, Seq<char>> {
    if args.len() == 0 || !(args[0].data is List) {
        Err("chunk: first argument must be a list"@)
    } else if args.len() < 2 || !(args[1].data is Number) {
        Err("chunk: size must be a number"@)
    } else if value::value_i64(args[1]) <= 0 {
        Err("chunk size must be positive"@)
    } else {
        Ok(list_of_lists(chunks(args[0].data->List_0@, value::value_i64(args[1]) as int)))
    }
}

fn cut_off(back: &mut Vec<SynValue>, size: usize) -> (r: Vec<NewValue>)
    requires
        size > 0,
    ensures
        ({
            let left = old(back)@.reverse();
            let n = if left.len() <= size {
                left.len() as int
            } else {
                size as int
            };
            &&& r@ == left.take(n).map_values(|v: SynValue| NewValue::Given(v))
            &&& final(back)@ == left.skip(n).reverse()
        }),
{
    let ghost left = back@.reverse();
    let mut r: Vec<NewValue> = Vec::new();
    while r.len() < size && back.len() > 0
        invariant
            r@.len() <= size,
            r@.len() <= left.len(),
            back@ == left.skip(r@.len() as int).reverse(),
            r@ == left.take(r@.len() as int).map_values(|v: SynValue| NewValue::Given(v)),
        decreases back.len(),
    {
        let ghost k = r@.len() as int;
        if let Some(item) = back.pop() {
            assert(item == left[k]);
            r.push(NewValue::Given(item));
            assert(back@ =~= left.skip(k + 1).reverse());
            assert(r@ =~= left.take(k + 1).map_values(|v: SynValue| NewValue::Given(v)));
        }
    }
    r
}

proof fn lemma_given_list(part: Seq<SynValue>, v: Vec<NewValue>)
    requires
        v@ == part.map_values(|x: SynValue| NewValue::Given(x)),
    ensures
        NewValue::List(v).tree() == NewTree::List(
            part.map_values(|x: SynValue| NewTree::Given(x)),
        ),
{
    value::lemma_list_trees(v@, v@.len());
    assert(value::list_trees(v@, v@.len()) =~= part.map_values(|x: SynValue| NewTree::Given(x)));
}

/// `chunk(list, size)`: cuts a list into lists of `size` items.
pub fn chunk(args: Vec<SynValue>) -> (r: Result<NewValue, &'static str>)
    ensures
        match chunk_result(args@) {
            Ok(t) => r matches Ok(v) && v.tree() == t,
            Err(why) => r matches Err(m) && m@ == why,
        },
{
    let mut args = args;
    let ghost given = args@;
    if args.len() == 0 || !matches!(args[0].data, SynData::List(_)) {
        return Err("chunk: first argument must be a list");
    }
    if args.len() < 2 || !matches!(args[1].data, SynData::Number(_)) {
        return Err("chunk: size must be a number");
    }
    let wanted = value::num_i64(&args[1]);
    if wanted <= 0 {
        return Err("chunk size must be positive");
    }
    let size = size_of(wanted);
    let list = args.remove(0);
    assert(list == given[0]);
    let items = match list.data {
        SynData::List(items) => items,
        _ => Vec::new(),
    };
    let ghost all = items@;
    let mut back = value::reversed(items);
    assert(back@.reverse() =~= all);
    let mut out: Vec<NewValue> = Vec::new();
    let ghost mut done: Seq<Seq<SynValue>> = seq![];
    let ghost mut left = all;
    assert(done + chunks(left, wanted as int) =~= chunks(all, wanted as int));
    while back.len() > 0
        invariant
            size > 0,
            wanted > 0,
            wanted <= usize::MAX ==> size == wanted,
            wanted > usize::MAX ==> size == usize::MAX,
            left == back@.reverse(),
            left.len() == back@.len(),
            done + chunks(left, wanted as int) == chunks(all, wanted as int),
            out@.len() == done.len(),
            forall|i: int|
                0 <= i < out@.len() ==> (#[trigger] out@[i]).tree() == NewTree::List(
                    done[i].map_values(|x: SynValue| NewTree::Given(x)),
                ),
        decreases back.len(),
    {
        let ghost n = if left.len() <= wanted {
            left.len() as int
        } else {
            wanted as int
        };
        assert(left.len() <= usize::MAX);
        let part = cut_off(&mut back, size);
        proof {
            let first = left.take(n);
            let rest = left.skip(n);
            lemma_given_list(first, part);
            assert(chunks(left, wanted as int) =~= seq![first] + chunks(rest, wanted as int)) by {
                if left.len() <= wanted {
                    assert(first =~= left);
                    assert(chunks(rest, wanted as int) =~= Seq::<Seq<SynValue>>::empty());
                }
            }
            assert(done + chunks(left, wanted as int) =~= done.push(first) + chunks(
                rest,
                wanted as int,
            ));
            assert(back@.reverse() =~= rest);
            done = done.push(first);
            left = rest;
        }
        out.push(NewValue::List(part));
    }
    proof {
        assert(chunks(left, wanted as int) =~= Seq::<Seq<SynValue>>::empty());
        assert(done =~= chunks(all, wanted as int));
        value::lemma_list_trees(out@, out@.len());
        assert(value::list_trees(out@, out@.len()) =~= list_of_lists(done)->List_0);
    }
    Ok(NewValue::List(out))
}

/// The pieces, put one behind another, are the list again; none is empty, all but the last
/// are of the size asked for, and the last is no longer.
pub proof fn law_chunks_make_up_the_list<T>(items: Seq<T>, size: int)
    requires
        size > 0,
    ensures
        chunks(items, size).flatten() == items,
        forall|i: int|
            0 <= i < chunks(items, size).len() ==> 0 < (#[trigger] chunks(items, size)[i]).len()
                <= size,
        forall|i: int|
            0 <= i < chunks(items, size).len() - 1 ==> (#[trigger] chunks(items, size)[i]).len()
                == size,
    decreases items.len(),
{
    let parts = chunks(items, size);
    if items.len() == 0 {
        assert(parts.flatten() =~= items);
    } else if items.len() <= size {
        assert(parts.drop_first() =~= Seq::<Seq<T>>::empty());
        assert(parts.drop_first().flatten() =~= Seq::<T>::empty());
        assert(parts.flatten() =~= parts[0] + parts.drop_first().flatten());
        assert(parts[0] + Seq::<T>::empty() =~= items);
    } else {
        let rest = items.skip(size);
        law_chunks_make_up_the_list(rest, size);
        let tail = chunks(rest, size);
        assert(parts.drop_first() =~= tail);
        assert(parts.flatten() =~= items.take(size) + tail.flatten());
        assert(items.take(size) + rest =~= items);
        assert(tail.len() > 0);
        assert forall|i: int| 0 <= i < parts.len() implies 0 < (#[trigger] parts[i]).len() <= size by {
            if i > 0 {
                assert(parts[i] == tail[i - 1]);
            }
        }
        assert forall|i: int| 0 <= i < parts.len() - 1 implies (#[trigger] parts[i]).len() == size by {
            if i > 0 {
                assert(parts[i] == tail[i - 1]);
            }
        }
    }
}

/// The builtins of this module.
#[derive(Clone, Copy)]
pub enum ParallelBuiltin {
    /// `chunk`.
    Chunk,
    /// `plan_parallel_map`, and the running of its plan.
    ParallelMap,
}

/// A builtin with its name and the number of arguments that it takes, or -1 where that is
/// open.
pub struct ParallelRegistration {
    pub name: &'static str,
    pub arity: i32,
    pub op: ParallelBuiltin,
}

/// The builtins of this module with their names and numbers of arguments.
pub open spec fn parallel_table() -> Seq<(Seq<char>, int, ParallelBuiltin)> {
    seq![
        ("chunk"@, 2, ParallelBuiltin::Chunk),
        ("parallel_map"@, -1, ParallelBuiltin::ParallelMap),
    ]
}

/// The builtin that a name stands for.
pub open spec fn builtin_named(name: Seq<char>) -> Option<ParallelBuiltin> {
    if name == "chunk"@ {
        Some(ParallelBuiltin::Chunk)
    } else if name == "parallel_map"@ {
        Some(ParallelBuiltin::ParallelMap)
    } else {
        None
    }
}

/// The builtin that a name stands for.
pub fn parallel_builtin(name: &str) -> (r: Option<ParallelBuiltin>)
    ensures
        r == builtin_named(name@),
{
    if text::str_eq(name, "chunk") {
        Some(ParallelBuiltin::Chunk)
    } else if text::str_eq(name, "parallel_map") {
        Some(ParallelBuiltin::ParallelMap)
    } else {
        None
    }
}

/// The table of the builtins of this module.
pub fn register_parallel_builtins() -> (r: Vec<ParallelRegistration>)
    ensures
        r@.map_values(|e: ParallelRegistration| (e.name@, e.arity as int, e.op)) == parallel_table(),
        forall|i: int|
            0 <= i < r@.len() ==> builtin_named((#[trigger] r@[i]).name@) == Some(r@[i].op),
{
    let mut r: Vec<ParallelRegistration> = Vec::new();
    r.push(ParallelRegistration { name: "chunk", arity: 2, op: ParallelBuiltin::Chunk });
    r.push(
        ParallelRegistration { name: "parallel_map", arity: -1, op: ParallelBuiltin::ParallelMap },
    );
    proof {
        reveal_strlit("chunk");
        reveal_strlit("parallel_map");
        assert("chunk"@.len() == 5 && "parallel_map"@.len() == 12);
        assert(r@.map_values(|e: ParallelRegistration| (e.name@, e.arity as int, e.op))
            =~= parallel_table());
    }
    r
}

/// As many workers are asked for as the third argument says, and 64 where it says no positive
/// number.
pub proof fn law_workers_asked_for(x: SynValue, n: i64)
    ensures
        asked_workers(None) == 64,
        !(x.data is Number) ==> asked_workers(Some(x)) == 64,
        x.data == SynData::Number(value::Number::Int(n)) ==> asked_workers(Some(x)) == if n > 0 {
            n as int
        } else {
            64
        },
{
}

/// `parallel_map` wants a task, of the user or built in, and then a list, and refuses anything
/// else, the task first.
pub proof fn law_what_parallel_map_wants(args: Seq<SynValue>)
    ensures
        plan_refusal(args) is None <==> args.len() >= 2 && (args[0].data is Task
            || args[0].data is Builtin) && args[1].data is List,
        args.len() == 0 || !(args[0].data is Task || args[0].data is Builtin) ==> plan_refusal(args)
            == Some("parallel_map: first argument must be a task"@),
        args.len() > 0 && (args[0].data is Task || args[0].data is Builtin) && (args.len() == 1
            || !(args[1].data is List)) ==> plan_refusal(args) == Some(
            "parallel_map: second argument must be a list"@,
        ),
{
}

/// `chunk` gives a list of lists: laid end to end they are the elements of the list that it was
/// given, and all but the last have the size that was asked for. It refuses what is no list,
/// what is no number and what is not positive, in this order.
pub proof fn law_chunk_gives_the_list_in_pieces(args: Seq<SynValue>)
    ensures
        args.len() == 0 || !(args[0].data is List) ==> chunk_result(args) == Err::<
            NewTree,
            Seq<char>,
        >("chunk: first argument must be a list"@),
        args.len() > 0 && args[0].data is List && (args.len() == 1 || !(args[1].data is Number))
            ==> chunk_result(args) == Err::<NewTree, Seq<char>>("chunk: size must be a number"@),
        args.len() > 1 && args[0].data is List && args[1].data is Number && value::value_i64(args[1])
            <= 0 ==> chunk_result(args) == Err::<NewTree, Seq<char>>(
            "chunk size must be positive"@,
        ),
        args.len() > 1 && args[0].data is List && args[1].data is Number && value::value_i64(args[1])
            > 0 ==> (chunk_result(args) matches Ok(t) && t matches NewTree::List(parts)
            && exists|cut: Seq<Seq<SynValue>>|
            {
                &&& #[trigger] cut.flatten() == args[0].data->List_0@
                &&& cut.len() == parts.len()
                &&& forall|i: int|
                    0 <= i < cut.len() ==> #[trigger] parts[i] == NewTree::List(
                        cut[i].map_values(|v: SynValue| NewTree::Given(v)),
                    )
                &&& forall|i: int|
                    0 <= i < cut.len() ==> 0 < (#[trigger] cut[i]).len() <= value::value_i64(
                        args[1],
                    )
                &&& forall|i: int|
                    0 <= i < cut.len() - 1 ==> (#[trigger] cut[i]).len() == value::value_i64(
                        args[1],
                    )
            }),
{
    if args.len() > 1 && args[0].data is List && args[1].data is Number && value::value_i64(args[1])
        > 0 {
        let size = value::value_i64(args[1]) as int;
        let items = args[0].data->List_0@;
        law_chunks_make_up_the_list(items, size);
        let cut = chunks(items, size);
        assert(cut.flatten() == items);
    }
}

/// The two builtins are known by their names, and no other name is one.
pub proof fn law_names_of_the_parallel_builtins(name: Seq<char>)
    ensures
        builtin_named("chunk"@) == Some(ParallelBuiltin::Chunk),
        builtin_named("parallel_map"@) == Some(ParallelBuiltin::ParallelMap),
        name != "chunk"@ && name != "parallel_map"@ ==> builtin_named(name) is None,
{
    reveal_strlit("chunk");
    reveal_strlit("parallel_map");
    assert("chunk"@.len() == 5 && "parallel_map"@.len() == 12);
}

/// A result stands where its item stands, and changes no other; of several failures the one of
/// the first item is kept, whichever came first.
pub proof fn law_reports_are_kept<T, E>(p: PoolView<T, E>, i: int, j: int, v: T, e: E, f: E)
    requires
        0 <= i < p.results.len(),
        0 <= j < p.results.len(),
    ensures
        after_report(p, i, Ok(v)).results[i] == Some(v),
        i != j ==> after_report(p, i, Ok(v)).results[j] == p.results[j],
        after_report(p, i, Ok(v)).error == p.error,
        p.error is None && i < j ==> after_report(
            after_report(p, i, Err(e)),
            j,
            Err(f),
        ).error == Some((i, e)) && after_report(after_report(p, j, Err(f)), i, Err(e)).error == Some(
            (i, e),
        ),
        outcome(after_report(p, i, Err(e))) is Err,
{
}

/// There is work for every worker, no more of them than were asked for, and one where there is
/// anything to do.
pub proof fn law_workers_have_work(limit: int, n: int)
    requires
        limit >= 0,
        n >= 0,
    ensures
        workers_for(limit, n) <= n,
        limit > 0 ==> workers_for(limit, n) <= limit,
        n > 0 ==> workers_for(limit, n) >= 1,
        0 < limit <= n ==> workers_for(limit, n) == limit,
        limit >= n ==> workers_for(limit, n) == n,
{
}

/// `chunk` takes two arguments, `parallel_map` any number, and there is no other builtin here.
pub proof fn law_arities_of_the_parallel_builtins(e: (Seq<char>, int, ParallelBuiltin))
    ensures
        parallel_table().contains(e) <==> e == ("chunk"@, 2int, ParallelBuiltin::Chunk) || e == (
            "parallel_map"@,
            -1int,
            ParallelBuiltin::ParallelMap,
        ),
        parallel_table().len() == 2,
{
    let t = parallel_table();
    assert(t[0] == ("chunk"@, 2int, ParallelBuiltin::Chunk));
    assert(t[1] == ("parallel_map"@, -1int, ParallelBuiltin::ParallelMap));
}

} // verus!
