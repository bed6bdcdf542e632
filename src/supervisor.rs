//! The crawl daemon's job tables: the sites being crawled and the rendered
//! trees of those that finished. The tables decide; the caller runs the
//! crawl tasks and reports, on each listing, how each of them stands.
//!
//! A finished job's rendering is kept for good: it is part of every later
//! listing, and its key cannot be started again.

use crate::site_url::{normalized, parse_url, string_views, text_eq, SiteUrl};
use vstd::prelude::*;

verus! {

/// How a running job's task stood when it was polled.
#[derive(Debug, PartialEq, Eq)]
pub enum JobStatus {
    /// Not finished yet.
    Pending,
    /// Finished; the rendering of its tree.
    Finished(String),
    /// Ended abnormally.
    Failed,
}

/// Why a job was not started.
#[derive(Debug, Clone, Copy, PartialEq, Eq)]
pub enum StartError {
    /// The key is running, or finished before.
    AlreadyActive,
    /// The key is not a site that normalises to a URL.
    InvalidUrl,
}

/// The job tables: running keys in order of start, finished keys with
/// their renderings in order of completion.
pub struct Supervisor {
    running: Vec<String>,
    done_keys: Vec<String>,
    done_text: Vec<String>,
}

pub ghost struct SupervisorView {
    pub running: Seq<Seq<char>>,
    pub completed: Seq<(Seq<char>, Seq<char>)>,
}

pub open spec fn completed_keys(c: Seq<(Seq<char>, Seq<char>)>) -> Seq<Seq<char>> {
    c.map_values(|e: (Seq<char>, Seq<char>)| e.0)
}

impl SupervisorView {
    /// No key twice in a table, and no key in both.
    pub open spec fn wf(self) -> bool {
        &&& self.running.no_duplicates()
        &&& completed_keys(self.completed).no_duplicates()
        &&& forall|k: Seq<char>| #[trigger]
            self.running.contains(k) ==> !completed_keys(self.completed).contains(k)
    }

    pub open spec fn active(self, key: Seq<char>) -> bool {
        self.running.contains(key) || completed_keys(self.completed).contains(key)
    }
}

/// The keys of the first `n` running jobs that are still pending.
pub open spec fn still_running(r: Seq<Seq<char>>, st: Seq<JobStatus>, n: nat) -> Seq<Seq<char>>
    decreases n,
{
    if n == 0 {
        Seq::empty()
    } else {
        let p = still_running(r, st, (n - 1) as nat);
        if st[n - 1] is Pending {
            p.push(r[n - 1])
        } else {
            p
        }
    }
}

/// The first `n` running jobs that finished, with their renderings.
pub open spec fn newly_done(r: Seq<Seq<char>>, st: Seq<JobStatus>, n: nat) -> Seq<
    (Seq<char>, Seq<char>),
>
    decreases n,
{
    if n == 0 {
        Seq::empty()
    } else {
        let p = newly_done(r, st, (n - 1) as nat);
        match st[n - 1] {
            JobStatus::Finished(t) => p.push((r[n - 1], t@)),
            _ => p,
        }
    }
}

/// The line that reports a job still in progress.
pub open spec fn notice(key: Seq<char>) -> Seq<char> {
    key + " is still being processed\n"@
}

pub open spec fn notices(keys: Seq<Seq<char>>) -> Seq<char>
    decreases keys.len(),
{
    if keys.len() == 0 {
        Seq::empty()
    } else {
        notices(keys.drop_last()) + notice(keys.last())
    }
}

pub open spec fn renderings(c: Seq<(Seq<char>, Seq<char>)>) -> Seq<char>
    decreases c.len(),
{
    if c.len() == 0 {
        Seq::empty()
    } else {
        renderings(c.drop_last()) + c.last().1
    }
}

/// The tables and the reply after a listing that found the running jobs as
/// `st` says.
pub open spec fn list_spec(s: SupervisorView, st: Seq<JobStatus>) -> (SupervisorView, Seq<char>) {
    let n = s.running.len();
    let pending = still_running(s.running, st, n);
    let completed = s.completed + newly_done(s.running, st, n);
    (SupervisorView { running: pending, completed }, notices(pending) + renderings(completed))
}

proof fn lemma_still_running_from(r: Seq<Seq<char>>, st: Seq<JobStatus>, n: nat, k: Seq<char>)
    requires
        n <= r.len(),
        n <= st.len(),
    ensures
        still_running(r, st, n).contains(k) ==> exists|i: int|
            0 <= i < n && r[i] == k && st[i] is Pending,
    decreases n,
{
    if n > 0 {
        lemma_still_running_from(r, st, (n - 1) as nat, k);
        let p = still_running(r, st, (n - 1) as nat);
        if still_running(r, st, n).contains(k) && st[n - 1] is Pending && !p.contains(k) {
            let q = p.push(r[n - 1]);
            let j = choose|j: int| 0 <= j < q.len() && q[j] == k;
            assert(j == p.len());
        }
    }
}

proof fn lemma_newly_done_from(r: Seq<Seq<char>>, st: Seq<JobStatus>, n: nat, k: Seq<char>)
    requires
        n <= r.len(),
        n <= st.len(),
    ensures
        completed_keys(newly_done(r, st, n)).contains(k) ==> exists|i: int|
            0 <= i < n && r[i] == k && st[i] is Finished,
    decreases n,
{
    if n > 0 {
        lemma_newly_done_from(r, st, (n - 1) as nat, k);
        let p = newly_done(r, st, (n - 1) as nat);
        if completed_keys(newly_done(r, st, n)).contains(k) && !completed_keys(p).contains(k) {
            let q = newly_done(r, st, n);
            let j = choose|j: int| 0 <= j < completed_keys(q).len() && completed_keys(q)[j] == k;
            if st[n - 1] is Finished {
                if j < p.len() {
                    assert(completed_keys(p)[j] == k);
                }
            } else {
                assert(completed_keys(p)[j] == k);
            }
        }
    }
}

proof fn lemma_sweep_distinct(r: Seq<Seq<char>>, st: Seq<JobStatus>, n: nat)
    requires
        n <= r.len(),
        n <= st.len(),
        r.no_duplicates(),
    ensures
        still_running(r, st, n).no_duplicates(),
        completed_keys(newly_done(r, st, n)).no_duplicates(),
    decreases n,
{
    if n > 0 {
        lemma_sweep_distinct(r, st, (n - 1) as nat);
        let p = still_running(r, st, (n - 1) as nat);
        let d = newly_done(r, st, (n - 1) as nat);
        let k = r[n - 1];
        lemma_still_running_from(r, st, (n - 1) as nat, k);
        lemma_newly_done_from(r, st, (n - 1) as nat, k);
        if st[n - 1] is Pending {
            let q = p.push(k);
            assert forall|a: int, b: int| 0 <= a < b < q.len() implies q[a] != q[b] by {
                if b == p.len() {
                    assert(p.contains(q[a]));
                }
            }
        }
        if st[n - 1] is Finished {
            let q = completed_keys(newly_done(r, st, n));
            assert(q =~= completed_keys(d).push(k));
            assert forall|a: int, b: int| 0 <= a < b < q.len() implies q[a] != q[b] by {
                if b == d.len() {
                    assert(completed_keys(d).contains(q[a]));
                }
            }
        }
    }
}

/// The position of `s` in `v`, if it is there.
fn position_of(v: &Vec<String>, s: &str) -> (r: Option<usize>)
    ensures
        match r {
            Some(i) => i < v@.len() && v@[i as int]@ == s@,
            None => forall|i: int| 0 <= i < v@.len() ==> v@[i]@ != s@,
        },
{
    let mut i: usize = 0;
    while i < v.len()
        invariant
            i <= v.len(),
            forall|j: int| 0 <= j < i ==> v@[j]@ != s@,
        decreases v.len() - i,
    {
        if text_eq(v[i].as_str(), s) {
            return Some(i);
        }
        i = i + 1;
    }
    None
}

impl Supervisor {
    pub closed spec fn view(&self) -> SupervisorView {
        SupervisorView {
            running: string_views(self.running@),
            completed: Seq::new(
                self.done_keys@.len(),
                |i: int| (self.done_keys@[i]@, self.done_text@[i]@),
            ),
        }
    }

    pub closed spec fn inv(&self) -> bool {
        self.done_keys@.len() == self.done_text@.len()
    }

    pub open spec fn wf(&self) -> bool {
        self.inv() && self.view().wf()
    }

    /// Tables with no job in them.
    pub fn new() -> (r: Supervisor)
        ensures
            r.wf(),
            r.view().running.len() == 0,
            r.view().completed.len() == 0,
    {
        let r = Supervisor { running: Vec::new(), done_keys: Vec::new(), done_text: Vec::new() };
        assert(r.view().running =~= Seq::<Seq<char>>::empty());
        assert(completed_keys(r.view().completed) =~= Seq::<Seq<char>>::empty());
        r
    }

    /// The running keys, in order of start.
    pub fn running_keys(&self) -> (r: Vec<String>)
        ensures
            string_views(r@) == self.view().running,
    {
        let mut r: Vec<String> = Vec::new();
        let mut i: usize = 0;
        while i < self.running.len()
            invariant
                i <= self.running@.len(),
                string_views(r@) == string_views(self.running@).take(i as int),
            decreases self.running@.len() - i,
        {
            let ghost prev = r@;
            let key = self.running[i].clone();
            r.push(key);
            assert(r@ == prev.push(self.running@[i as int]));
            assert(string_views(r@) =~= string_views(prev).push(self.running@[i as int]@));
            assert(string_views(self.running@).take(i + 1) =~= string_views(self.running@).take(
                i as int,
            ).push(self.running@[i as int]@));
            i = i + 1;
            assert(string_views(r@) =~= string_views(self.running@).take(i as int));
        }
        assert(string_views(self.running@).take(i as int) =~= string_views(self.running@));
        r
    }

    fn is_done(&self, key: &str) -> (r: bool)
        requires
            self.inv(),
        ensures
            r == completed_keys(self.view().completed).contains(key@),
    {
        let p = position_of(&self.done_keys, key);
        proof {
            let c = completed_keys(self.view().completed);
            match p {
                Some(i) => {
                    assert(c[i as int] == key@);
                },
                None => {
                    if c.contains(key@) {
                        let j = choose|j: int| 0 <= j < c.len() && c[j] == key@;
                        assert(self.done_keys@[j]@ == key@);
                    }
                },
            }
        }
        p.is_some()
    }

    /// Registers a job under `key`: refused where the key is running or
    /// finished before, or where it normalises to no URL; the tables change
    /// only on success, where the key joins the running ones and the URL to
    /// crawl from is returned.
    pub fn start(&mut self, key: &str) -> (r: Result<SiteUrl, StartError>)
        requires
            old(self).wf(),
        ensures
            final(self).wf(),
            old(self).view().active(key@) ==> r == Err::<SiteUrl, StartError>(
                StartError::AlreadyActive,
            ) && final(self).view() == old(self).view(),
            !old(self).view().active(key@) && normalized(key@) is None ==> r == Err::<
                SiteUrl,
                StartError,
            >(StartError::InvalidUrl) && final(self).view() == old(self).view(),
            !old(self).view().active(key@) && normalized(key@) is Some ==> r is Ok && Some(
                r->Ok_0@,
            ) == normalized(key@) && final(self).view() == (SupervisorView {
                running: old(self).view().running.push(key@),
                ..old(self).view()
            }),
    {
        let ghost o = self.view();
        let pos = position_of(&self.running, key);
        proof {
            match pos {
                Some(i) => {
                    assert(o.running[i as int] == key@);
                },
                None => {
                    if o.running.contains(key@) {
                        let j = choose|j: int| 0 <= j < o.running.len() && o.running[j] == key@;
                        assert(self.running@[j]@ == key@);
                    }
                },
            }
        }
        if pos.is_some() || self.is_done(key) {
            return Err(StartError::AlreadyActive);
        }
        match parse_url(key) {
            Ok(u) => {
                self.running.push(String::from_str(key));
                proof {
                    let f = self.view();
                    assert(f.running =~= o.running.push(key@));
                    assert(f.completed =~= o.completed);
                    assert forall|a: int, b: int| 0 <= a < b < f.running.len() implies f.running[a]
                        != f.running[b] by {
                        if b == o.running.len() {
                            assert(o.running.contains(f.running[a]));
                        }
                    }
                    assert forall|k: Seq<char>| #[trigger] f.running.contains(k) implies !completed_keys(
                        f.completed,
                    ).contains(k) by {
                        if !o.running.contains(k) {
                            let j = choose|j: int| 0 <= j < f.running.len() && f.running[j] == k;
                            if j < o.running.len() {
                                assert(o.running[j] == k);
                            }
                        }
                    }
                }
                Ok(u)
            },
            Err(_) => Err(StartError::InvalidUrl),
        }
    }

    /// Drops the running job under `key`, if there is one; tells whether
    /// there was.
    pub fn stop(&mut self, key: &str) -> (r: bool)
        requires
            old(self).wf(),
        ensures
            final(self).wf(),
            r == old(self).view().running.contains(key@),
            r ==> exists|i: int|
                0 <= i < old(self).view().running.len() && old(self).view().running[i] == key@
                    && final(self).view() == (SupervisorView {
                    running: old(self).view().running.remove(i),
                    ..old(self).view()
                }),
            !r ==> final(self).view() == old(self).view(),
    {
        let ghost o = self.view();
        match position_of(&self.running, key) {
            Some(i) => {
                self.running.remove(i);
                proof {
                    let f = self.view();
                    assert(o.running[i as int] == key@);
                    assert(f.running =~= o.running.remove(i as int));
                    assert(f.completed =~= o.completed);
                    assert forall|a: int, b: int| 0 <= a < b < f.running.len() implies f.running[a]
                        != f.running[b] by {
                        let a2 = if a < i { a } else { a + 1 };
                        let b2 = if b < i { b } else { b + 1 };
                        assert(f.running[a] == o.running[a2]);
                        assert(f.running[b] == o.running[b2]);
                    }
                    assert forall|k: Seq<char>| #[trigger] f.running.contains(k) implies !completed_keys(
                        f.completed,
                    ).contains(k) by {
                        let j = choose|j: int| 0 <= j < f.running.len() && f.running[j] == k;
                        let j2 = if j < i { j } else { j + 1 };
                        assert(o.running[j2] == k);
                        assert(o.running.contains(k));
                    }
                }
                true
            },
            None => {
                proof {
                    if o.running.contains(key@) {
                        let j = choose|j: int| 0 <= j < o.running.len() && o.running[j] == key@;
                        assert(self.running@[j]@ == key@);
                    }
                }
                false
            },
        }
    }

    /// A listing: given how each running job's task stands (in the order of
    /// `running_keys`), finished jobs move with their renderings to the
    /// finished table, failed ones are dropped, pending ones stay. The reply
    /// is a line for each pending job, then the renderings of all finished
    /// jobs, earlier ones first.
    pub fn list(&mut self, statuses: &Vec<JobStatus>) -> (r: String)
        requires
            old(self).wf(),
            statuses@.len() == old(self).view().running.len(),
        ensures
            final(self).wf(),
            (final(self).view(), r@) == list_spec(old(self).view(), statuses@),
    {
        let ghost o = self.view();
        let ghost st = statuses@;
        let n = self.running.len();
        let mut pending: Vec<String> = Vec::new();
        let mut out = String::new();
        let mut i: usize = 0;
        proof {
            reveal_strlit(" is still being processed\n");
        }
        while i < n
            invariant
                self.inv(),
                n == o.running.len(),
                st == statuses@,
                st.len() == n,
                i <= n,
                string_views(self.running@) == o.running,
                string_views(pending@) == still_running(o.running, st, i as nat),
                self.view().completed == o.completed + newly_done(o.running, st, i as nat),
                out@ == notices(still_running(o.running, st, i as nat)),
            decreases n - i,
        {
            let ghost prev_pending = pending@;
            let ghost prev_done = self.view().completed;
            let key = self.running[i].clone();
            assert(key@ == o.running[i as int]);
            match &statuses[i] {
                JobStatus::Pending => {
                    out.append(key.as_str());
                    out.append(" is still being processed\n");
                    pending.push(key);
                    assert(string_views(pending@) =~= string_views(prev_pending).push(o.running[i as int]));
                    assert(still_running(o.running, st, (i + 1) as nat).drop_last()
                        == still_running(o.running, st, i as nat));
                    assert(out@ =~= notices(still_running(o.running, st, (i + 1) as nat)));
                },
                JobStatus::Finished(t) => {
                    self.done_keys.push(key);
                    self.done_text.push(t.clone());
                    assert(self.view().completed =~= prev_done.push((o.running[i as int], t@)));
                    assert(self.view().completed =~= o.completed + newly_done(
                        o.running,
                        st,
                        (i + 1) as nat,
                    ));
                },
                JobStatus::Failed => {},
            }
            i = i + 1;
        }
        self.running = pending;
        let ghost c = self.view().completed;
        let ghost head = out@;
        let mut j: usize = 0;
        while j < self.done_text.len()
            invariant
                self.inv(),
                c == self.view().completed,
                j <= c.len(),
                out@ == head + renderings(c.take(j as int)),
            decreases c.len() - j,
        {
            out.append(self.done_text[j].as_str());
            assert(c.take(j + 1).drop_last() =~= c.take(j as int));
            assert(out@ =~= head + renderings(c.take(j + 1)));
            j = j + 1;
        }
        assert(c.take(j as int) =~= c);
        proof {
            lemma_list_wf(o, st);
            assert(self.view() =~= list_spec(o, st).0);
        }
        out
    }
}

/// A listing keeps the tables' invariant.
proof fn lemma_list_wf(s: SupervisorView, st: Seq<JobStatus>)
    requires
        s.wf(),
        st.len() == s.running.len(),
    ensures
        list_spec(s, st).0.wf(),
{
    let n = s.running.len();
    let t = list_spec(s, st).0;
    let fresh = newly_done(s.running, st, n);
    lemma_sweep_distinct(s.running, st, n);
    let ck = completed_keys(t.completed);
    assert(ck =~= completed_keys(s.completed) + completed_keys(fresh));
    assert forall|a: int, b: int| 0 <= a < b < ck.len() implies ck[a] != ck[b] by {
        let m = s.completed.len() as int;
        if a < m && b >= m {
            lemma_newly_done_from(s.running, st, n, ck[b]);
            assert(completed_keys(fresh)[b - m] == ck[b]);
            assert(completed_keys(fresh).contains(ck[b]));
            let i = choose|i: int| 0 <= i < n && s.running[i] == ck[b] && st[i] is Finished;
            assert(s.running.contains(ck[b]));
            assert(completed_keys(s.completed)[a] == ck[a]);
        } else if a >= m {
            assert(completed_keys(fresh)[a - m] == ck[a]);
            assert(completed_keys(fresh)[b - m] == ck[b]);
        } else {
            assert(completed_keys(s.completed)[a] == ck[a]);
            assert(completed_keys(s.completed)[b] == ck[b]);
        }
    }
    assert forall|k: Seq<char>| #[trigger] t.running.contains(k) implies !ck.contains(k) by {
        lemma_still_running_from(s.running, st, n, k);
        let i = choose|i: int| 0 <= i < n && s.running[i] == k && st[i] is Pending;
        assert(s.running.contains(k));
        if ck.contains(k) {
            let j = choose|j: int| 0 <= j < ck.len() && ck[j] == k;
            let m = s.completed.len() as int;
            if j < m {
                assert(completed_keys(s.completed)[j] == k);
            } else {
                assert(completed_keys(fresh)[j - m] == k);
                lemma_newly_done_from(s.running, st, n, k);
                let i2 = choose|i2: int| 0 <= i2 < n && s.running[i2] == k && st[i2] is Finished;
                assert(i != i2);
            }
        }
    }
}

/// A job whose task ended abnormally leaves the running table at the
/// listing that finds it so, and never enters the finished one.
pub proof fn lemma_failed_job_dropped(s: SupervisorView, st: Seq<JobStatus>, i: int)
    requires
        s.wf(),
        st.len() == s.running.len(),
        0 <= i < st.len(),
        st[i] is Failed,
    ensures
        !list_spec(s, st).0.running.contains(s.running[i]),
        !completed_keys(list_spec(s, st).0.completed).contains(s.running[i]),
{
    let n = s.running.len();
    let k = s.running[i];
    let fresh = newly_done(s.running, st, n);
    lemma_still_running_from(s.running, st, n, k);
    lemma_newly_done_from(s.running, st, n, k);
    assert(s.running.contains(k));
    let ck = completed_keys(list_spec(s, st).0.completed);
    assert(ck =~= completed_keys(s.completed) + completed_keys(fresh));
    if ck.contains(k) {
        let j = choose|j: int| 0 <= j < ck.len() && ck[j] == k;
        let m = s.completed.len() as int;
        if j < m {
            assert(completed_keys(s.completed)[j] == k);
        } else {
            assert(completed_keys(fresh)[j - m] == k);
            assert(completed_keys(fresh).contains(k));
        }
    }
}

} // verus!
