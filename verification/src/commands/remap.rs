//! Giving the threads of a sweep synthetic IDs that agree across its batches.
//!
//! Every batch runs the target anew, so one and the same thread has another ID in each. Threads
//! are told apart by task name and by their rank among those of that name instead.

use crate::commands::sweep::{self, BatchThread, BatchThreadView};
use crate::text::{self, chars_less, chars_of, owned, same_text};
use vstd::prelude::*;

verus! {

/// A task name, and the rank of a thread among those of that name.
pub type ThreadKey = (Seq<char>, nat);

/// How many threads of a name there are.
pub open spec fn count_named(threads: Seq<BatchThreadView>, task: Seq<char>) -> nat
    decreases threads.len(),
{
    if threads.len() == 0 {
        0
    } else {
        count_named(threads.drop_last(), task) + if threads.last().task == task {
            1nat
        } else {
            0
        }
    }
}

/// How many threads of a name have a smaller ID.
pub open spec fn rank(threads: Seq<BatchThreadView>, task: Seq<char>, tid: u32) -> nat
    decreases threads.len(),
{
    if threads.len() == 0 {
        0
    } else {
        rank(threads.drop_last(), task, tid) + if threads.last().task == task && threads.last().tid
            < tid {
            1nat
        } else {
            0
        }
    }
}

/// The key of a thread of a batch.
pub open spec fn key_of(threads: Seq<BatchThreadView>, i: int) -> ThreadKey {
    (threads[i].task, rank(threads, threads[i].task, threads[i].tid))
}

/// The keys of `n` threads of a name.
pub open spec fn group_keys(task: Seq<char>, n: nat) -> Seq<ThreadKey> {
    Seq::new(n, |k: int| (task, k as nat))
}

/// Whether one of the first `m` threads has a name.
pub open spec fn named_before(threads: Seq<BatchThreadView>, m: int, task: Seq<char>) -> bool {
    exists|i: int| 0 <= i < m && (#[trigger] threads[i]).task == task
}

/// The keys of the names that the first `m` threads of a batch have: name by name in order of
/// appearance, by rank within each.
pub open spec fn batch_keys(threads: Seq<BatchThreadView>, m: nat) -> Seq<ThreadKey>
    decreases m,
{
    if m == 0 {
        Seq::empty()
    } else {
        let before = batch_keys(threads, (m - 1) as nat);
        let task = threads[m - 1].task;
        if named_before(threads, m - 1, task) {
            before
        } else {
            before + group_keys(task, count_named(threads, task))
        }
    }
}

/// Whether key `a` sorts before key `b`: by name, then by rank.
pub open spec fn key_before(a: ThreadKey, b: ThreadKey) -> bool {
    text::text_less(a.0, b.0) || (a.0 == b.0 && a.1 < b.1)
}

/// Whether keys are in ascending order, none twice.
pub open spec fn ascending(table: Seq<ThreadKey>) -> bool {
    forall|i: int, j: int|
        0 <= i < j < table.len() ==> key_before(#[trigger] table[i], #[trigger] table[j])
}

/// How many of the keys at the front of a table sort before `key`.
pub open spec fn place_of(table: Seq<ThreadKey>, key: ThreadKey) -> nat
    decreases table.len(),
{
    if table.len() == 0 || !key_before(table[0], key) {
        0
    } else {
        1 + place_of(table.drop_first(), key)
    }
}

/// A table of keys with more keys put in where they sort, each once.
pub open spec fn with_keys(table: Seq<ThreadKey>, keys: Seq<ThreadKey>) -> Seq<ThreadKey>
    decreases keys.len(),
{
    if keys.len() == 0 {
        table
    } else {
        let before = with_keys(table, keys.drop_last());
        if before.contains(keys.last()) {
            before
        } else {
            before.insert(place_of(before, keys.last()) as int, keys.last())
        }
    }
}

/// The keys of all batches, each once, in ascending order.
pub open spec fn key_table(batches: Seq<Seq<BatchThreadView>>) -> Seq<ThreadKey>
    decreases batches.len(),
{
    if batches.len() == 0 {
        Seq::empty()
    } else {
        with_keys(key_table(batches.drop_last()), batch_keys(batches.last(), batches.last().len()))
    }
}

/// How many threads all batches have together.
pub open spec fn total_threads(batches: Seq<Seq<BatchThreadView>>) -> nat
    decreases batches.len(),
{
    if batches.len() == 0 {
        0
    } else {
        total_threads(batches.drop_last()) + batches.last().len()
    }
}

/// A thread of a sweep with its synthetic ID.
pub struct SweepThread {
    /// The thread's own ID.
    pub real_tid: u32,
    /// The ID that stands for it in all batches.
    pub synthetic_tid: u32,
    /// ID of the process that the thread belongs to.
    pub tgid: u32,
    /// Task name.
    pub task: String,
}

/// Model of [`SweepThread`].
pub struct SweepThreadView {
    pub real_tid: u32,
    pub synthetic_tid: u32,
    pub tgid: u32,
    pub task: Seq<char>,
}

impl View for SweepThread {
    type V = SweepThreadView;

    open spec fn view(&self) -> SweepThreadView {
        SweepThreadView {
            real_tid: self.real_tid,
            synthetic_tid: self.synthetic_tid,
            tgid: self.tgid,
            task: self.task@,
        }
    }
}

/// The synthetic ID of a key: its place in the table, from one.
pub open spec fn synthetic_id(table: Seq<ThreadKey>, key: ThreadKey) -> u32 {
    (table.index_of(key) + 1) as u32
}

/// A thread of a batch with the ID that the table gives it.
pub open spec fn with_id(
    table: Seq<ThreadKey>,
    threads: Seq<BatchThreadView>,
    i: int,
) -> SweepThreadView {
    SweepThreadView {
        real_tid: threads[i].tid,
        synthetic_tid: synthetic_id(table, key_of(threads, i)),
        tgid: threads[i].tgid,
        task: threads[i].task,
    }
}

/// The first `n` threads of a batch with their IDs.
pub open spec fn batch_with_ids(
    table: Seq<ThreadKey>,
    threads: Seq<BatchThreadView>,
    n: nat,
) -> Seq<SweepThreadView> {
    Seq::new(n, |i: int| with_id(table, threads, i))
}

/// The threads of all batches, in order, with their IDs.
pub open spec fn all_with_ids(
    table: Seq<ThreadKey>,
    batches: Seq<Seq<BatchThreadView>>,
) -> Seq<SweepThreadView>
    decreases batches.len(),
{
    if batches.len() == 0 {
        Seq::empty()
    } else {
        all_with_ids(table, batches.drop_last()) + batch_with_ids(
            table,
            batches.last(),
            batches.last().len(),
        )
    }
}

/// The model of threads with IDs.
pub open spec fn ids_view(threads: Seq<SweepThread>) -> Seq<SweepThreadView> {
    threads.map_values(|t: SweepThread| t@)
}

/// A key in executable form.
struct Slot {
    task: String,
    rank: usize,
}

impl View for Slot {
    type V = ThreadKey;

    closed spec fn view(&self) -> ThreadKey {
        (self.task@, self.rank as nat)
    }
}

spec fn slots_view(slots: Seq<Slot>) -> Seq<ThreadKey> {
    slots.map_values(|s: Slot| s@)
}

proof fn lemma_key_order(a: ThreadKey, b: ThreadKey, c: ThreadKey)
    ensures
        key_before(a, b) && key_before(b, c) ==> key_before(a, c),
        !key_before(a, a),
        key_before(a, b) || key_before(b, a) || a == b,
{
    if text::text_less(a.0, b.0) && text::text_less(b.0, c.0) {
        text::lemma_text_transitive(a.0, b.0, c.0);
    }
    text::lemma_text_irreflexive(a.0);
    text::lemma_text_total(a.0, b.0);
}

proof fn lemma_place_of(table: Seq<ThreadKey>, key: ThreadKey)
    ensures
        place_of(table, key) <= table.len(),
        forall|i: int| 0 <= i < place_of(table, key) ==> key_before(#[trigger] table[i], key),
        place_of(table, key) < table.len() ==> !key_before(
            table[place_of(table, key) as int],
            key,
        ),
    decreases table.len(),
{
    if table.len() > 0 && key_before(table[0], key) {
        let rest = table.drop_first();
        lemma_place_of(rest, key);
        assert forall|i: int| 0 <= i < place_of(table, key) implies key_before(
            #[trigger] table[i],
            key,
        ) by {
            if i > 0 {
                assert(rest[i - 1] == table[i]);
            }
        }
        let p = place_of(rest, key) as int;
        if p < rest.len() {
            assert(rest[p] == table[p + 1]);
        }
    }
}

/// Putting a key in where it sorts keeps a table in order.
proof fn lemma_put_in(table: Seq<ThreadKey>, key: ThreadKey)
    requires
        ascending(table),
        !table.contains(key),
    ensures
        ascending(table.insert(place_of(table, key) as int, key)),
{
    let p = place_of(table, key) as int;
    lemma_place_of(table, key);
    let after = table.insert(p, key);
    assert forall|i: int, j: int| 0 <= i < j < after.len() implies key_before(
        #[trigger] after[i],
        #[trigger] after[j],
    ) by {
        if i < p {
            assert(after[i] == table[i]);
            if j < p {
                assert(after[j] == table[j]);
            } else if j > p {
                assert(after[j] == table[j - 1]);
            }
        } else {
            assert(after[j] == table[j - 1]);
            if i > p {
                assert(after[i] == table[i - 1]);
            } else {
                assert(table.contains(table[p]));
                lemma_key_order(key, table[p], table[j - 1]);
                if p < j - 1 {
                    assert(key_before(table[p], table[j - 1]));
                }
            }
        }
    }
}

/// Two tables in order with the same keys are the same.
proof fn lemma_same_keys(a: Seq<ThreadKey>, b: Seq<ThreadKey>)
    requires
        ascending(a),
        ascending(b),
        forall|key: ThreadKey| #[trigger] a.contains(key) <==> b.contains(key),
    ensures
        a == b,
    decreases a.len(),
{
    if a.len() == 0 {
        if b.len() > 0 {
            assert(b.contains(b[0]));
            assert(a.contains(b[0]));
        }
        assert(a =~= b);
    } else {
        assert(a.contains(a[0]));
        let j = choose|j: int| 0 <= j < b.len() && b[j] == a[0];
        assert(b.contains(b[0]));
        assert(a.contains(b[0]));
        let i = choose|i: int| 0 <= i < a.len() && a[i] == b[0];
        if i > 0 {
            assert(key_before(a[0], a[i]));
            if j > 0 {
                assert(key_before(b[0], b[j]));
                lemma_key_order(a[0], b[0], a[0]);
            } else {
                lemma_key_order(a[0], a[0], a[0]);
            }
        }
        assert(a[0] == b[0]);
        let x = a.drop_first();
        let y = b.drop_first();
        assert(ascending(x)) by {
            assert forall|i: int, j: int| 0 <= i < j < x.len() implies key_before(
                #[trigger] x[i],
                #[trigger] x[j],
            ) by {
                assert(key_before(a[i + 1], a[j + 1]));
            }
        }
        assert(ascending(y)) by {
            assert forall|i: int, j: int| 0 <= i < j < y.len() implies key_before(
                #[trigger] y[i],
                #[trigger] y[j],
            ) by {
                assert(key_before(b[i + 1], b[j + 1]));
            }
        }
        assert forall|key: ThreadKey| #[trigger] x.contains(key) <==> y.contains(key) by {
            if x.contains(key) {
                let i = choose|i: int| 0 <= i < x.len() && x[i] == key;
                assert(a[i + 1] == key);
                assert(key_before(a[0], a[i + 1]));
                lemma_key_order(a[0], a[0], a[0]);
                assert(a.contains(key));
                assert(b.contains(key));
                let j = choose|j: int| 0 <= j < b.len() && b[j] == key;
                assert(y[j - 1] == key);
            }
            if y.contains(key) {
                let i = choose|i: int| 0 <= i < y.len() && y[i] == key;
                assert(b[i + 1] == key);
                assert(key_before(b[0], b[i + 1]));
                lemma_key_order(b[0], b[0], b[0]);
                assert(b.contains(key));
                assert(a.contains(key));
                let j = choose|j: int| 0 <= j < a.len() && a[j] == key;
                assert(x[j - 1] == key);
            }
        }
        lemma_same_keys(x, y);
        assert(a =~= seq![a[0]] + x);
        assert(b =~= seq![b[0]] + y);
    }
}

fn find_place(slots: &Vec<Slot>, task: &str, rank: usize) -> (r: usize)
    ensures
        r == place_of(slots_view(slots@), (task@, rank as nat)),
        r <= slots@.len(),
{
    let ghost all = slots_view(slots@);
    let ghost key = (task@, rank as nat);
    let chars = chars_of(task);
    let mut i: usize = 0;
    assert(all.skip(0) =~= all);
    while i < slots.len()
        invariant
            all == slots_view(slots@),
            key == (task@, rank as nat),
            chars@ == task@,
            i <= slots@.len(),
            place_of(all, key) == i + place_of(all.skip(i as int), key),
        decreases slots@.len() - i,
    {
        let ghost rest = all.skip(i as int);
        assert(rest[0] == slots@[i as int]@);
        assert(rest.drop_first() =~= all.skip(i as int + 1));
        let own = chars_of(slots[i].task.as_str());
        let before = chars_less(&own, &chars) || (slots[i].rank < rank && same_text(
            slots[i].task.as_str(),
            task,
        ));
        if !before {
            return i;
        }
        i = i + 1;
    }
    i
}

fn find_slot(slots: &Vec<Slot>, task: &str, rank: usize) -> (r: Option<usize>)
    ensures
        match r {
            Some(i) => i < slots@.len() && slots@[i as int]@ == (task@, rank as nat),
            None => !slots_view(slots@).contains((task@, rank as nat)),
        },
{
    let mut i: usize = 0;
    while i < slots.len()
        invariant
            i <= slots@.len(),
            forall|j: int| 0 <= j < i ==> (#[trigger] slots@[j])@ != (task@, rank as nat),
        decreases slots@.len() - i,
    {
        if slots[i].rank == rank && same_text(slots[i].task.as_str(), task) {
            return Some(i);
        }
        i = i + 1;
    }
    assert(!slots_view(slots@).contains((task@, rank as nat))) by {
        if slots_view(slots@).contains((task@, rank as nat)) {
            let j = choose|j: int|
                0 <= j < slots@.len() && slots_view(slots@)[j] == (task@, rank as nat);
            assert(slots@[j]@ == (task@, rank as nat));
        }
    }
    None
}

proof fn lemma_counts(threads: Seq<BatchThreadView>, task: Seq<char>, tid: u32)
    ensures
        rank(threads, task, tid) <= count_named(threads, task) <= threads.len(),
        forall|i: int|
            0 <= i < threads.len() && (#[trigger] threads[i]).task == task && threads[i].tid == tid
                ==> rank(threads, task, tid) < count_named(threads, task),
    decreases threads.len(),
{
    if threads.len() > 0 {
        let front = threads.drop_last();
        lemma_counts(front, task, tid);
        assert forall|i: int|
            0 <= i < threads.len() && (#[trigger] threads[i]).task == task && threads[i].tid
                == tid implies rank(threads, task, tid) < count_named(threads, task) by {
            if i < front.len() {
                assert(front[i] == threads[i]);
            }
        }
    }
}

fn count_task(threads: &Vec<BatchThread>, task: &str) -> (r: usize)
    ensures
        r == count_named(sweep::threads_view(threads@), task@),
{
    let ghost all = sweep::threads_view(threads@);
    let mut n: usize = 0;
    let mut i: usize = 0;
    while i < threads.len()
        invariant
            all == sweep::threads_view(threads@),
            i <= threads@.len(),
            n <= i,
            n == count_named(all.take(i as int), task@),
        decreases threads@.len() - i,
    {
        assert(all.take(i as int + 1).drop_last() =~= all.take(i as int));
        if same_text(threads[i].task.as_str(), task) {
            n = n + 1;
        }
        i = i + 1;
    }
    assert(all.take(i as int) =~= all);
    n
}

fn rank_of(threads: &Vec<BatchThread>, task: &str, tid: u32) -> (r: usize)
    ensures
        r == rank(sweep::threads_view(threads@), task@, tid),
{
    let ghost all = sweep::threads_view(threads@);
    let mut n: usize = 0;
    let mut i: usize = 0;
    while i < threads.len()
        invariant
            all == sweep::threads_view(threads@),
            i <= threads@.len(),
            n <= i,
            n == rank(all.take(i as int), task@, tid),
        decreases threads@.len() - i,
    {
        assert(all.take(i as int + 1).drop_last() =~= all.take(i as int));
        if threads[i].tid < tid && same_text(threads[i].task.as_str(), task) {
            n = n + 1;
        }
        i = i + 1;
    }
    assert(all.take(i as int) =~= all);
    n
}

/// Adds the keys of `n` threads of a name to the table.
fn add_group(slots: &mut Vec<Slot>, task: &str, n: usize)
    ensures
        slots_view(final(slots)@) == with_keys(
            slots_view(old(slots)@),
            group_keys(task@, n as nat),
        ),
{
    let ghost start = slots_view(slots@);
    let ghost keys = group_keys(task@, n as nat);
    let mut k: usize = 0;
    assert(keys.take(0) =~= Seq::empty());
    while k < n
        invariant
            k <= n,
            keys == group_keys(task@, n as nat),
            slots_view(slots@) == with_keys(start, keys.take(k as int)),
        decreases n - k,
    {
        let ghost before = slots@;
        assert(keys.take(k as int + 1).drop_last() =~= keys.take(k as int));
        assert(keys.take(k as int + 1).last() == (task@, k as nat));
        match find_slot(slots, task, k) {
            Some(at) => {
                assert(slots_view(slots@)[at as int] == (task@, k as nat));
            },
            None => {
                let at = find_place(slots, task, k);
                slots.insert(at, Slot { task: owned(task), rank: k });
                assert(slots_view(slots@) =~= slots_view(before).insert(
                    at as int,
                    (task@, k as nat),
                ));
            },
        }
        k = k + 1;
    }
    assert(keys.take(n as int) =~= keys);
}

proof fn lemma_with_keys_append(table: Seq<ThreadKey>, a: Seq<ThreadKey>, b: Seq<ThreadKey>)
    ensures
        with_keys(with_keys(table, a), b) == with_keys(table, a + b),
    decreases b.len(),
{
    if b.len() == 0 {
        assert(a + b =~= a);
    } else {
        lemma_with_keys_append(table, a, b.drop_last());
        assert((a + b).drop_last() =~= a + b.drop_last());
    }
}

/// Adds the keys of a batch to the table.
fn add_batch(slots: &mut Vec<Slot>, threads: &Vec<BatchThread>)
    ensures
        slots_view(final(slots)@) == with_keys(
            slots_view(old(slots)@),
            batch_keys(sweep::threads_view(threads@), threads@.len()),
        ),
{
    let ghost start = slots_view(slots@);
    let ghost all = sweep::threads_view(threads@);
    let mut i: usize = 0;
    while i < threads.len()
        invariant
            all == sweep::threads_view(threads@),
            i <= threads@.len(),
            slots_view(slots@) == with_keys(start, batch_keys(all, i as nat)),
        decreases threads@.len() - i,
    {
        let task = threads[i].task.as_str();
        assert(all[i as int].task == task@);
        let mut named = false;
        let mut j: usize = 0;
        while j < i
            invariant
                all == sweep::threads_view(threads@),
                j <= i <= threads@.len(),
                named == named_before(all, j as int, task@),
            decreases i - j,
        {
            assert(all[j as int].task == threads@[j as int].task@);
            if same_text(threads[j].task.as_str(), task) {
                named = true;
                assert(named_before(all, j as int + 1, task@));
            }
            j = j + 1;
        }
        if !named {
            let n = count_task(threads, task);
            add_group(slots, task, n);
            proof {
                lemma_with_keys_append(
                    start,
                    batch_keys(all, i as nat),
                    group_keys(task@, n as nat),
                );
            }
        }
        i = i + 1;
    }
}

proof fn lemma_with_keys(table: Seq<ThreadKey>, keys: Seq<ThreadKey>)
    requires
        ascending(table),
    ensures
        ascending(with_keys(table, keys)),
        with_keys(table, keys).len() <= table.len() + keys.len(),
        forall|key: ThreadKey|
            table.contains(key) || keys.contains(key) ==> #[trigger] with_keys(
                table,
                keys,
            ).contains(key),
    decreases keys.len(),
{
    if keys.len() > 0 {
        let front = keys.drop_last();
        lemma_with_keys(table, front);
        let before = with_keys(table, front);
        let after = with_keys(table, keys);
        let p = place_of(before, keys.last()) as int;
        lemma_place_of(before, keys.last());
        if !before.contains(keys.last()) {
            lemma_put_in(before, keys.last());
        }
        assert forall|key: ThreadKey|
            table.contains(key) || keys.contains(key) implies #[trigger] after.contains(key) by {
            if key == keys.last() {
                if !before.contains(key) {
                    assert(after[p] == key);
                }
            } else {
                if keys.contains(key) {
                    let i = choose|i: int| 0 <= i < keys.len() && keys[i] == key;
                    assert(front[i] == key);
                }
                assert(before.contains(key));
                let i = choose|i: int| 0 <= i < before.len() && before[i] == key;
                if before.contains(keys.last()) || i < p {
                    assert(after[i] == key);
                } else {
                    assert(after[i + 1] == key);
                }
            }
        }
    }
}

proof fn lemma_ascending_once(table: Seq<ThreadKey>)
    requires
        ascending(table),
    ensures
        table.no_duplicates(),
{
    assert forall|i: int, j: int|
        0 <= i < table.len() && 0 <= j < table.len() && i != j implies table[i] != table[j] by {
        lemma_key_order(table[i], table[i], table[i]);
        if i < j {
            assert(key_before(table[i], table[j]));
        } else {
            assert(key_before(table[j], table[i]));
        }
    }
}

/// How many of the first `n` threads have one of the names of the first `m`.
spec fn covered(threads: Seq<BatchThreadView>, m: int, n: int) -> nat
    decreases n,
{
    if n <= 0 {
        0
    } else {
        covered(threads, m, n - 1) + if named_before(threads, m, threads[n - 1].task) {
            1nat
        } else {
            0
        }
    }
}

proof fn lemma_covered_step(threads: Seq<BatchThreadView>, m: int, n: int)
    requires
        0 <= m < threads.len(),
        0 <= n <= threads.len(),
    ensures
        covered(threads, m, n) <= n,
        covered(threads, m + 1, n) == covered(threads, m, n) + if named_before(
            threads,
            m,
            threads[m].task,
        ) {
            0
        } else {
            count_named(threads.take(n), threads[m].task)
        },
    decreases n,
{
    if n > 0 {
        lemma_covered_step(threads, m, n - 1);
        assert(threads.take(n).drop_last() =~= threads.take(n - 1));
        let task = threads[n - 1].task;
        assert(named_before(threads, m + 1, task) == (named_before(threads, m, task)
            || threads[m].task == task));
    }
}

proof fn lemma_batch_keys(threads: Seq<BatchThreadView>, m: nat)
    requires
        m <= threads.len(),
    ensures
        batch_keys(threads, m).len() == covered(threads, m as int, threads.len() as int),
        batch_keys(threads, m).len() <= threads.len(),
        forall|i: int, k: nat|
            0 <= i < m && k < count_named(threads, threads[i].task) ==> #[trigger] batch_keys(
                threads,
                m,
            ).contains((threads[i].task, k)),
    decreases m,
{
    let all = threads.len() as int;
    if m == 0 {
        lemma_covered_none(threads, all);
    } else {
        let m0 = (m - 1) as nat;
        lemma_batch_keys(threads, m0);
        lemma_covered_step(threads, m0 as int, all);
        assert(threads.take(all) =~= threads);
        lemma_covered_bound(threads, m as int, all);
        let task = threads[m0 as int].task;
        let before = batch_keys(threads, m0);
        let after = batch_keys(threads, m);
        let group = group_keys(task, count_named(threads, task));
        assert forall|i: int, k: nat|
            0 <= i < m && k < count_named(threads, threads[i].task) implies #[trigger] after.contains(
        (threads[i].task, k)) by {
            let key = (threads[i].task, k);
            if named_before(threads, i, threads[i].task) || i < m0 {
                let i0 = if i < m0 {
                    i
                } else {
                    choose|i0: int| 0 <= i0 < i && (#[trigger] threads[i0]).task == threads[i].task
                };
                assert(before.contains((threads[i0].task, k)));
                let at = choose|at: int| 0 <= at < before.len() && before[at] == key;
                assert(after[at] == key);
            } else {
                assert(after[before.len() + k as int] == group[k as int]);
            }
        }
    }
}

proof fn lemma_covered_none(threads: Seq<BatchThreadView>, n: int)
    ensures
        covered(threads, 0, n) == 0,
    decreases n,
{
    if n > 0 {
        lemma_covered_none(threads, n - 1);
    }
}

proof fn lemma_covered_bound(threads: Seq<BatchThreadView>, m: int, n: int)
    requires
        0 <= n,
    ensures
        covered(threads, m, n) <= n,
    decreases n,
{
    if n > 0 {
        lemma_covered_bound(threads, m, n - 1);
    }
}

proof fn lemma_key_table(batches: Seq<Seq<BatchThreadView>>)
    ensures
        ascending(key_table(batches)),
        key_table(batches).no_duplicates(),
        key_table(batches).len() <= total_threads(batches),
        forall|b: int, i: int|
            0 <= b < batches.len() && 0 <= i < batches[b].len() ==> key_table(batches).contains(
                #[trigger] key_of(batches[b], i),
            ),
    decreases batches.len(),
{
    if batches.len() > 0 {
        let front = batches.drop_last();
        let last = batches.last();
        lemma_key_table(front);
        lemma_batch_keys(last, last.len());
        let keys = batch_keys(last, last.len());
        lemma_with_keys(key_table(front), keys);
        assert forall|b: int, i: int|
            0 <= b < batches.len() && 0 <= i < batches[b].len() implies key_table(batches).contains(
            #[trigger] key_of(batches[b], i),
        ) by {
            if b < front.len() {
                assert(front[b] == batches[b]);
                assert(key_table(front).contains(key_of(front[b], i)));
            } else {
                lemma_counts(last, last[i].task, last[i].tid);
                assert(keys.contains((last[i].task, rank(last, last[i].task, last[i].tid))));
            }
        }
    }
    lemma_ascending_once(key_table(batches));
}

/// Gives every thread of every batch its synthetic ID.
pub fn assign_synthetic_tids(batches: &Vec<Vec<BatchThread>>) -> (r: Vec<SweepThread>)
    requires
        total_threads(sweep::batches_view(batches@)) < u32::MAX,
    ensures
        ids_view(r@) == all_with_ids(
            key_table(sweep::batches_view(batches@)),
            sweep::batches_view(batches@),
        ),
{
    let ghost all = sweep::batches_view(batches@);
    let mut slots: Vec<Slot> = Vec::new();
    let mut b: usize = 0;
    assert(slots_view(slots@) =~= Seq::empty());
    assert(all.take(0) =~= Seq::empty());
    while b < batches.len()
        invariant
            all == sweep::batches_view(batches@),
            b <= batches@.len(),
            slots_view(slots@) == key_table(all.take(b as int)),
        decreases batches@.len() - b,
    {
        assert(all.take(b as int + 1).drop_last() =~= all.take(b as int));
        add_batch(&mut slots, &batches[b]);
        b = b + 1;
    }
    assert(all.take(b as int) =~= all);
    let ghost table = key_table(all);
    proof {
        lemma_key_table(all);
    }
    let mut out: Vec<SweepThread> = Vec::new();
    b = 0;
    assert(ids_view(out@) =~= all_with_ids(table, all.take(0)));
    while b < batches.len()
        invariant
            all == sweep::batches_view(batches@),
            table == key_table(all),
            table == slots_view(slots@),
            table.no_duplicates(),
            table.len() < u32::MAX,
            b <= batches@.len(),
            ids_view(out@) == all_with_ids(table, all.take(b as int)),
        decreases batches@.len() - b,
    {
        let threads = &batches[b];
        let ghost views = sweep::threads_view(threads@);
        let ghost done = ids_view(out@);
        assert(all.take(b as int + 1).drop_last() =~= all.take(b as int));
        assert(all[b as int] == views);
        let mut i: usize = 0;
        assert(done =~= done + batch_with_ids(table, views, 0));
        while i < threads.len()
            invariant
                all == sweep::batches_view(batches@),
                table == key_table(all),
                table == slots_view(slots@),
                table.no_duplicates(),
                table.len() < u32::MAX,
                b < batches@.len(),
                threads == batches@[b as int],
                views == sweep::threads_view(threads@),
                all[b as int] == views,
                i <= threads@.len(),
                ids_view(out@) == done + batch_with_ids(table, views, i as nat),
            decreases threads@.len() - i,
        {
            let ghost before = out@;
            let t = &threads[i];
            assert(views[i as int] == t@);
            let k = rank_of(threads, t.task.as_str(), t.tid);
            let ghost key = key_of(views, i as int);
            assert(table.contains(key_of(all[b as int], i as int))) by {
                lemma_key_table(all);
            }
            let at = find_slot(&slots, t.task.as_str(), k);
            if let Some(at) = at {
                assert(table[at as int] == key);
                assert(table[table.index_of(key)] == key);
                assert(at as int == table.index_of(key));
                let thread = SweepThread {
                    real_tid: t.tid,
                    synthetic_tid: at as u32 + 1,
                    tgid: t.tgid,
                    task: t.task.clone(),
                };
                assert(thread@ == with_id(table, views, i as int));
                out.push(thread);
                assert(ids_view(out@) =~= ids_view(before).push(thread@));
                assert(ids_view(out@) =~= done + batch_with_ids(table, views, i as nat + 1));
            }
            i = i + 1;
        }
        b = b + 1;
    }
    assert(all.take(b as int) =~= all);
    out
}

/// Ranks tell the threads of a name apart.
proof fn lemma_rank_increases(threads: Seq<BatchThreadView>, task: Seq<char>, a: u32, b: u32)
    requires
        a <= b,
    ensures
        rank(threads, task, a) <= rank(threads, task, b),
        a < b && (exists|i: int|
            0 <= i < threads.len() && (#[trigger] threads[i]).task == task && threads[i].tid == a)
            ==> rank(threads, task, a) < rank(threads, task, b),
    decreases threads.len(),
{
    if threads.len() > 0 {
        let front = threads.drop_last();
        lemma_rank_increases(front, task, a, b);
        if a < b && exists|i: int|
            0 <= i < threads.len() && (#[trigger] threads[i]).task == task && threads[i].tid == a {
            let i = choose|i: int|
                0 <= i < threads.len() && (#[trigger] threads[i]).task == task && threads[i].tid
                    == a;
            if i < front.len() {
                assert(front[i].task == task && front[i].tid == a);
            }
        }
    }
}

/// Two threads of one batch never share a synthetic ID.
pub proof fn ids_are_distinct_within_a_batch(
    batches: Seq<Seq<BatchThreadView>>,
    b: int,
    i: int,
    j: int,
)
    requires
        total_threads(batches) < u32::MAX,
        0 <= b < batches.len(),
        sweep::distinct(batches[b]),
        0 <= i < j < batches[b].len(),
    ensures
        with_id(key_table(batches), batches[b], i).synthetic_tid != with_id(
            key_table(batches),
            batches[b],
            j,
        ).synthetic_tid,
{
    let table = key_table(batches);
    let threads = batches[b];
    lemma_key_table(batches);
    let x = key_of(threads, i);
    let y = key_of(threads, j);
    assert(table.contains(x) && table.contains(y));
    if x.0 == y.0 {
        if threads[i].tid < threads[j].tid {
            lemma_rank_increases(threads, x.0, threads[i].tid, threads[j].tid);
        } else {
            lemma_rank_increases(threads, x.0, threads[j].tid, threads[i].tid);
        }
    }
    assert(table[table.index_of(x)] == x);
    assert(table[table.index_of(y)] == y);
}

/// Threads of two batches share a synthetic ID exactly when they have the same name and the same
/// rank among the threads of that name.
pub proof fn ids_agree_across_batches(
    batches: Seq<Seq<BatchThreadView>>,
    b: int,
    i: int,
    c: int,
    j: int,
)
    requires
        total_threads(batches) < u32::MAX,
        0 <= b < batches.len(),
        0 <= i < batches[b].len(),
        0 <= c < batches.len(),
        0 <= j < batches[c].len(),
    ensures
        with_id(key_table(batches), batches[b], i).synthetic_tid == with_id(
            key_table(batches),
            batches[c],
            j,
        ).synthetic_tid <==> key_of(batches[b], i) == key_of(batches[c], j),
{
    let table = key_table(batches);
    lemma_key_table(batches);
    let x = key_of(batches[b], i);
    let y = key_of(batches[c], j);
    assert(table.contains(x) && table.contains(y));
    assert(table[table.index_of(x)] == x);
    assert(table[table.index_of(y)] == y);
}

/// Among threads with different IDs, those of a name have all ranks below their number.
proof fn lemma_every_rank(threads: Seq<BatchThreadView>, task: Seq<char>, k: nat) -> (i: int)
    requires
        sweep::distinct(threads),
        k < count_named(threads, task),
    ensures
        0 <= i < threads.len(),
        key_of(threads, i) == (task, k),
    decreases threads.len(),
{
    let front = threads.drop_last();
    let last = threads.last();
    let n = threads.len() - 1;
    assert(sweep::distinct(front)) by {
        assert forall|a: int, b: int| 0 <= a < b < front.len() implies (#[trigger] front[a]).tid != (
        #[trigger] front[b]).tid by {
            assert(threads[a].tid != threads[b].tid);
        }
    }
    if last.task != task {
        let i = lemma_every_rank(front, task, k);
        assert(threads[i] == front[i]);
        i
    } else {
        let r = rank(front, task, last.tid);
        lemma_counts(front, task, last.tid);
        if k == r {
            n
        } else if k < r {
            let i = lemma_every_rank(front, task, k);
            assert(threads[i].tid != threads[n].tid);
            if front[i].tid > last.tid {
                lemma_rank_increases(front, task, last.tid, front[i].tid);
            }
            i
        } else {
            let i = lemma_every_rank(front, task, (k - 1) as nat);
            assert(threads[i].tid != threads[n].tid);
            if front[i].tid < last.tid {
                lemma_rank_increases(front, task, front[i].tid, last.tid);
            }
            i
        }
    }
}

/// Whether a key is that of a thread of a batch.
pub open spec fn is_key(batches: Seq<Seq<BatchThreadView>>, key: ThreadKey) -> bool {
    exists|b: int, i: int|
        0 <= b < batches.len() && 0 <= i < batches[b].len() && #[trigger] key_of(batches[b], i)
            == key
}

proof fn lemma_batch_keys_occur(threads: Seq<BatchThreadView>, m: nat, key: ThreadKey) -> (i: int)
    requires
        sweep::distinct(threads),
        m <= threads.len(),
        batch_keys(threads, m).contains(key),
    ensures
        0 <= i < threads.len(),
        key_of(threads, i) == key,
    decreases m,
{
    let keys = batch_keys(threads, m);
    let before = batch_keys(threads, (m - 1) as nat);
    let at = choose|at: int| 0 <= at < keys.len() && keys[at] == key;
    if at < before.len() {
        assert(before[at] == key);
        lemma_batch_keys_occur(threads, (m - 1) as nat, key)
    } else {
        lemma_every_rank(threads, key.0, key.1)
    }
}

proof fn lemma_with_keys_origin(table: Seq<ThreadKey>, keys: Seq<ThreadKey>, key: ThreadKey)
    requires
        with_keys(table, keys).contains(key),
    ensures
        table.contains(key) || keys.contains(key),
    decreases keys.len(),
{
    if keys.len() > 0 {
        let before = with_keys(table, keys.drop_last());
        let after = with_keys(table, keys);
        let p = place_of(before, keys.last()) as int;
        lemma_place_of(before, keys.last());
        let at = choose|at: int| 0 <= at < after.len() && after[at] == key;
        if before.contains(keys.last()) || at != p {
            if !before.contains(keys.last()) && at > p {
                assert(before[at - 1] == key);
            } else {
                assert(before[at] == key);
            }
            lemma_with_keys_origin(table, keys.drop_last(), key);
            if keys.drop_last().contains(key) {
                let i = choose|i: int|
                    0 <= i < keys.drop_last().len() && keys.drop_last()[i] == key;
                assert(keys[i] == key);
            }
        } else {
            assert(keys[keys.len() - 1] == key);
        }
    }
}

proof fn lemma_table_keys_occur(batches: Seq<Seq<BatchThreadView>>, key: ThreadKey)
    requires
        forall|b: int| 0 <= b < batches.len() ==> sweep::distinct(#[trigger] batches[b]),
        key_table(batches).contains(key),
    ensures
        is_key(batches, key),
    decreases batches.len(),
{
    if batches.len() > 0 {
        let front = batches.drop_last();
        let last = batches[batches.len() - 1];
        let keys = batch_keys(last, last.len());
        lemma_with_keys_origin(key_table(front), keys, key);
        if keys.contains(key) {
            let i = lemma_batch_keys_occur(last, last.len(), key);
            assert(key_of(batches[batches.len() - 1], i) == key);
        } else {
            assert forall|b: int| 0 <= b < front.len() implies sweep::distinct(
                #[trigger] front[b],
            ) by {
                assert(sweep::distinct(batches[b]));
            }
            lemma_table_keys_occur(front, key);
            let (b, i) = choose|b: int, i: int|
                0 <= b < front.len() && 0 <= i < front[b].len() && #[trigger] key_of(front[b], i)
                    == key;
            assert(key_of(batches[b], i) == key);
        }
    }
}

/// Whether a thread of a batch has this synthetic ID.
pub open spec fn is_id(batches: Seq<Seq<BatchThreadView>>, n: u32) -> bool {
    exists|b: int, i: int|
        0 <= b < batches.len() && 0 <= i < batches[b].len() && (#[trigger] with_id(
            key_table(batches),
            batches[b],
            i,
        )).synthetic_tid == n
}

/// Synthetic IDs leave no gap: with `d` different pairs of name and rank among the threads of all
/// batches, the IDs given are exactly those from one to `d`.
pub proof fn ids_are_consecutive(batches: Seq<Seq<BatchThreadView>>)
    requires
        total_threads(batches) < u32::MAX,
        forall|b: int| 0 <= b < batches.len() ==> sweep::distinct(#[trigger] batches[b]),
    ensures
        key_table(batches).no_duplicates(),
        forall|key: ThreadKey| #[trigger]
            key_table(batches).contains(key) <==> is_key(batches, key),
        forall|n: u32| #[trigger] is_id(batches, n) <==> 1 <= n <= key_table(batches).len(),
{
    let table = key_table(batches);
    lemma_key_table(batches);
    assert forall|key: ThreadKey| #[trigger] table.contains(key) <==> is_key(batches, key) by {
        if table.contains(key) {
            lemma_table_keys_occur(batches, key);
        }
    }
    assert forall|n: u32| #[trigger] is_id(batches, n) <==> 1 <= n <= table.len() by {
        if is_id(batches, n) {
            let (b, i) = choose|b: int, i: int|
                0 <= b < batches.len() && 0 <= i < batches[b].len() && (#[trigger] with_id(
                    table,
                    batches[b],
                    i,
                )).synthetic_tid == n;
            let key = key_of(batches[b], i);
            assert(table.contains(key));
            assert(table[table.index_of(key)] == key);
        }
        if 1 <= n <= table.len() {
            let key = table[n - 1];
            assert(table.contains(key));
            lemma_table_keys_occur(batches, key);
            let (b, i) = choose|b: int, i: int|
                0 <= b < batches.len() && 0 <= i < batches[b].len() && #[trigger] key_of(
                    batches[b],
                    i,
                ) == key;
            assert(table[table.index_of(key)] == key);
            assert(table.index_of(key) == n - 1);
            assert(with_id(table, batches[b], i).synthetic_tid == n);
        }
    }
}

/// The table lists the pairs of name and rank that occur in ascending order, whichever thread was
/// met first.
pub proof fn key_table_is_sorted(batches: Seq<Seq<BatchThreadView>>)
    requires
        forall|b: int| 0 <= b < batches.len() ==> sweep::distinct(#[trigger] batches[b]),
    ensures
        ascending(key_table(batches)),
        forall|key: ThreadKey| #[trigger]
            key_table(batches).contains(key) <==> is_key(batches, key),
{
    lemma_key_table(batches);
    assert forall|key: ThreadKey| #[trigger] key_table(batches).contains(key) <==> is_key(
        batches,
        key,
    ) by {
        if key_table(batches).contains(key) {
            lemma_table_keys_occur(batches, key);
        }
    }
}

/// Synthetic IDs are reproducible: two sweeps in which the same pairs of name and rank occur, in
/// whatever batches and whatever order, give each pair the same ID.
pub proof fn ids_are_reproducible(
    a: Seq<Seq<BatchThreadView>>,
    b: Seq<Seq<BatchThreadView>>,
)
    requires
        forall|i: int| 0 <= i < a.len() ==> sweep::distinct(#[trigger] a[i]),
        forall|i: int| 0 <= i < b.len() ==> sweep::distinct(#[trigger] b[i]),
        forall|key: ThreadKey| #[trigger] is_key(a, key) <==> is_key(b, key),
    ensures
        key_table(a) == key_table(b),
        forall|key: ThreadKey| #[trigger]
            synthetic_id(key_table(a), key) == synthetic_id(key_table(b), key),
{
    key_table_is_sorted(a);
    key_table_is_sorted(b);
    assert forall|key: ThreadKey| #[trigger] key_table(a).contains(key) <==> key_table(
        b,
    ).contains(key) by {
        assert(is_key(a, key) <==> is_key(b, key));
    }
    lemma_same_keys(key_table(a), key_table(b));
}

proof fn lemma_rank_without(threads: Seq<BatchThreadView>, task: Seq<char>, tid: u32, p: int)
    requires
        0 <= p < threads.len(),
    ensures
        rank(threads, task, tid) == rank(threads.remove(p), task, tid) + if threads[p].task == task
            && threads[p].tid < tid {
            1nat
        } else {
            0
        },
    decreases threads.len(),
{
    if p == threads.len() - 1 {
        assert(threads.remove(p) =~= threads.drop_last());
    } else {
        lemma_rank_without(threads.drop_last(), task, tid, p);
        assert(threads.remove(p).drop_last() =~= threads.drop_last().remove(p));
    }
}

proof fn lemma_rank_permuted(
    a: Seq<BatchThreadView>,
    b: Seq<BatchThreadView>,
    task: Seq<char>,
    tid: u32,
)
    requires
        a.to_multiset() == b.to_multiset(),
    ensures
        rank(a, task, tid) == rank(b, task, tid),
    decreases a.len(),
{
    broadcast use vstd::seq_lib::group_to_multiset_ensures;

    assert(a.to_multiset().len() == a.len() && b.to_multiset().len() == b.len());
    if a.len() > 0 {
        let last = a.last();
        assert(a[a.len() - 1] == last);
        assert(a.contains(last));
        assert(b.to_multiset().count(last) > 0);
        assert(b.contains(last));
        let p = choose|p: int| 0 <= p < b.len() && b[p] == last;
        assert(a.remove(a.len() - 1) =~= a.drop_last());
        assert(a.drop_last().to_multiset() =~= b.remove(p).to_multiset());
        lemma_rank_permuted(a.drop_last(), b.remove(p), task, tid);
        lemma_rank_without(b, task, tid, p);
    }
}

/// Whether the batches of two sweeps hold the same threads, each batch in whatever order.
pub open spec fn same_batches(
    a: Seq<Seq<BatchThreadView>>,
    b: Seq<Seq<BatchThreadView>>,
) -> bool {
    &&& a.len() == b.len()
    &&& forall|i: int| 0 <= i < a.len() ==> (#[trigger] a[i]).to_multiset() == b[i].to_multiset()
}

proof fn lemma_keys_permuted(
    a: Seq<Seq<BatchThreadView>>,
    b: Seq<Seq<BatchThreadView>>,
    key: ThreadKey,
)
    requires
        same_batches(a, b),
        is_key(a, key),
    ensures
        is_key(b, key),
{
    broadcast use vstd::seq_lib::group_to_multiset_ensures;

    let (n, i) = choose|n: int, i: int|
        0 <= n < a.len() && 0 <= i < a[n].len() && #[trigger] key_of(a[n], i) == key;
    let t = a[n][i];
    assert(a[n].contains(t));
    assert(a[n].to_multiset() == b[n].to_multiset());
    assert(b[n].to_multiset().count(t) > 0);
    assert(b[n].contains(t));
    let j = choose|j: int| 0 <= j < b[n].len() && b[n][j] == t;
    lemma_rank_permuted(a[n], b[n], t.task, t.tid);
    assert(key_of(b[n], j) == key);
}

/// It makes no difference in which order the threads of a batch were met: every thread gets the
/// same synthetic ID.
pub proof fn ids_ignore_the_order_of_arrival(
    a: Seq<Seq<BatchThreadView>>,
    b: Seq<Seq<BatchThreadView>>,
    n: int,
    i: int,
    j: int,
)
    requires
        same_batches(a, b),
        forall|k: int| 0 <= k < a.len() ==> sweep::distinct(#[trigger] a[k]),
        forall|k: int| 0 <= k < b.len() ==> sweep::distinct(#[trigger] b[k]),
        0 <= n < a.len(),
        0 <= i < a[n].len(),
        0 <= j < b[n].len(),
        a[n][i] == b[n][j],
    ensures
        with_id(key_table(a), a[n], i) == with_id(key_table(b), b[n], j),
{
    assert forall|key: ThreadKey| #[trigger] is_key(a, key) <==> is_key(b, key) by {
        if is_key(a, key) {
            lemma_keys_permuted(a, b, key);
        }
        if is_key(b, key) {
            assert forall|k: int| 0 <= k < b.len() implies (#[trigger] b[k]).to_multiset()
                == a[k].to_multiset() by {
                assert(a[k].to_multiset() == b[k].to_multiset());
            }
            lemma_keys_permuted(b, a, key);
        }
    }
    ids_are_reproducible(a, b);
    assert(a[n].to_multiset() == b[n].to_multiset());
    lemma_rank_permuted(a[n], b[n], a[n][i].task, a[n][i].tid);
}

/// The rank of a thread is the number of threads of its name with a smaller ID.
pub proof fn ranks_count_the_smaller_ids(threads: Seq<BatchThreadView>, task: Seq<char>, tid: u32)
    ensures
        rank(threads, task, tid) == threads.filter(
            |t: BatchThreadView| t.task == task && t.tid < tid,
        ).len(),
        count_named(threads, task) == threads.filter(|t: BatchThreadView| t.task == task).len(),
    decreases threads.len(),
{
    reveal(Seq::filter);
    if threads.len() > 0 {
        ranks_count_the_smaller_ids(threads.drop_last(), task, tid);
    }
}

/// Threads of two batches share a synthetic ID exactly when they have the same name and as many
/// threads of that name have a smaller ID in the one batch as in the other. Synthetic IDs ascend
/// with that number among threads of one name.
pub proof fn ids_go_by_name_and_rank(
    batches: Seq<Seq<BatchThreadView>>,
    b: int,
    i: int,
    c: int,
    j: int,
)
    requires
        total_threads(batches) < u32::MAX,
        0 <= b < batches.len(),
        0 <= i < batches[b].len(),
        0 <= c < batches.len(),
        0 <= j < batches[c].len(),
    ensures
        ({
            let x = batches[b][i];
            let y = batches[c][j];
            let m = batches[b].filter(
                |t: BatchThreadView| t.task == x.task && t.tid < x.tid,
            ).len();
            let n = batches[c].filter(
                |t: BatchThreadView| t.task == y.task && t.tid < y.tid,
            ).len();
            let p = with_id(key_table(batches), batches[b], i).synthetic_tid;
            let q = with_id(key_table(batches), batches[c], j).synthetic_tid;
            &&& p == q <==> x.task == y.task && m == n
            &&& x.task == y.task && m < n ==> p < q
            &&& 1 <= p <= key_table(batches).len()
        }),
{
    let x = batches[b][i];
    let y = batches[c][j];
    ranks_count_the_smaller_ids(batches[b], x.task, x.tid);
    ranks_count_the_smaller_ids(batches[c], y.task, y.tid);
    ids_agree_across_batches(batches, b, i, c, j);
    let table = key_table(batches);
    lemma_key_table(batches);
    let k = key_of(batches[b], i);
    let l = key_of(batches[c], j);
    assert(table.contains(k) && table.contains(l));
    let s = table.index_of(k);
    let t = table.index_of(l);
    assert(table[s] == k && table[t] == l);
    if k.0 == l.0 && k.1 < l.1 {
        if t < s {
            assert(key_before(table[t], table[s]));
            text::lemma_text_irreflexive(k.0);
        }
    }
}

proof fn lemma_all_with_ids(
    table: Seq<ThreadKey>,
    batches: Seq<Seq<BatchThreadView>>,
    b: int,
    i: int,
) -> (at: int)
    requires
        0 <= b < batches.len(),
        0 <= i < batches[b].len(),
    ensures
        at == total_threads(batches.take(b)) + i,
        0 <= at < all_with_ids(table, batches).len(),
        all_with_ids(table, batches)[at] == with_id(table, batches[b], i),
    decreases batches.len(),
{
    let front = batches.drop_last();
    lemma_listed(table, front);
    if b == batches.len() - 1 {
        assert(batches.take(b) =~= front);
        all_with_ids(table, front).len() + i
    } else {
        assert(front.take(b) =~= batches.take(b));
        assert(front[b] == batches[b]);
        lemma_all_with_ids(table, front, b, i)
    }
}

proof fn lemma_listed(table: Seq<ThreadKey>, batches: Seq<Seq<BatchThreadView>>)
    ensures
        all_with_ids(table, batches).len() == total_threads(batches),
    decreases batches.len(),
{
    if batches.len() > 0 {
        lemma_listed(table, batches.drop_last());
    }
}

/// Every thread of every batch is listed, with its own ID, process and task name and with the ID
/// that the table gives it; batch after batch, in the order of each, and nothing else is. Returns
/// where it is listed.
pub proof fn every_thread_is_listed(
    batches: Seq<Seq<BatchThreadView>>,
    b: int,
    i: int,
) -> (at: int)
    requires
        0 <= b < batches.len(),
        0 <= i < batches[b].len(),
    ensures
        ({
            let all = all_with_ids(key_table(batches), batches);
            let t = batches[b][i];
            &&& all.len() == batches.fold_left(
                0int,
                |n: int, threads: Seq<BatchThreadView>| n + threads.len(),
            )
            &&& at == batches.take(b).fold_left(
                0int,
                |n: int, threads: Seq<BatchThreadView>| n + threads.len(),
            ) + i
            &&& 0 <= at < all.len()
            &&& all[at].real_tid == t.tid
            &&& all[at].tgid == t.tgid
            &&& all[at].task == t.task
            &&& all[at].synthetic_tid == with_id(
                key_table(batches),
                batches[b],
                i,
            ).synthetic_tid
        }),
{
    lemma_total_threads(batches);
    lemma_total_threads(batches.take(b));
    lemma_listed(key_table(batches), batches);
    lemma_all_with_ids(key_table(batches), batches, b, i)
}

proof fn lemma_total_threads(batches: Seq<Seq<BatchThreadView>>)
    ensures
        total_threads(batches) == batches.fold_left(
            0int,
            |n: int, threads: Seq<BatchThreadView>| n + threads.len(),
        ),
    decreases batches.len(),
{
    if batches.len() > 0 {
        lemma_total_threads(batches.drop_last());
    }
}

} // verus!
