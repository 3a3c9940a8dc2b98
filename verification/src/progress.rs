use vstd::prelude::*;
use vstd::string::StringExecFns;
use crate::converter::ConvertResult;
use crate::text::{decimal, decimal_text};

verus! {

/* Totals over results */

/// The CRC counts of all converted text files among `results`: messages,
/// passed, failed.
pub open spec fn crc_sums(results: Seq<ConvertResult>) -> (nat, nat, nat)
    decreases results.len(),
{
    if results.len() == 0 {
        (0, 0, 0)
    } else {
        let (t, p, f) = crc_sums(results.drop_last());
        match results.last().crc_stats {
            Some(s) => (t + s.total as nat, p + s.passed as nat, f + s.failed as nat),
            None => (t, p, f),
        }
    }
}

proof fn lemma_crc_sums_prefix(results: Seq<ConvertResult>, i: int)
    requires
        0 <= i <= results.len(),
    ensures
        crc_sums(results.take(i)).0 <= crc_sums(results).0,
        crc_sums(results.take(i)).1 <= crc_sums(results).1,
        crc_sums(results.take(i)).2 <= crc_sums(results).2,
    decreases results.len(),
{
    if i < results.len() {
        lemma_crc_sums_prefix(results.drop_last(), i);
        assert(results.drop_last().take(i) =~= results.take(i));
    } else {
        assert(results.take(i) =~= results);
    }
}

/// The CRC counts summed over all results that carry them: messages,
/// passed, failed.
pub fn crc_totals(results: &[ConvertResult]) -> (totals: (usize, usize, usize))
    requires
        crc_sums(results@).0 <= usize::MAX,
        crc_sums(results@).1 <= usize::MAX,
        crc_sums(results@).2 <= usize::MAX,
    ensures
        totals.0 == crc_sums(results@).0,
        totals.1 == crc_sums(results@).1,
        totals.2 == crc_sums(results@).2,
{
    let mut total: usize = 0;
    let mut passed: usize = 0;
    let mut failed: usize = 0;
    let mut i: usize = 0;
    assert(results@.take(0) =~= Seq::<ConvertResult>::empty());
    while i < results.len()
        invariant
            i <= results.len(),
            (total as nat, passed as nat, failed as nat) == crc_sums(results@.take(i as int)),
            crc_sums(results@).0 <= usize::MAX,
            crc_sums(results@).1 <= usize::MAX,
            crc_sums(results@).2 <= usize::MAX,
        decreases results.len() - i,
    {
        proof {
            lemma_crc_sums_prefix(results@, i + 1);
            assert(results@.take(i + 1).drop_last() =~= results@.take(i as int));
        }
        match &results[i].crc_stats {
            Some(stats) => {
                total = total + stats.total;
                passed = passed + stats.passed;
                failed = failed + stats.failed;
            },
            None => {},
        }
        i = i + 1;
    }
    assert(results@.take(results.len() as int) =~= results@);
    (total, passed, failed)
}

/// Where each file's counts add up, so do the totals: every message
/// counted either passed or failed.
pub proof fn lemma_crc_totals_add_up(results: Seq<ConvertResult>)
    requires
        forall|i: int|
            0 <= i < results.len() && (#[trigger] results[i]).crc_stats is Some ==> results[i].crc_stats->0.wf(),
    ensures
        crc_sums(results).0 == crc_sums(results).1 + crc_sums(results).2,
    decreases results.len(),
{
    if results.len() > 0 {
        lemma_crc_totals_add_up(results.drop_last());
        assert(results.last() == results[results.len() - 1]);
    }
}

/// The totals of two runs of results are the sums of their totals.
pub proof fn lemma_crc_sums_concat(a: Seq<ConvertResult>, b: Seq<ConvertResult>)
    ensures
        crc_sums(a + b).0 == crc_sums(a).0 + crc_sums(b).0,
        crc_sums(a + b).1 == crc_sums(a).1 + crc_sums(b).1,
        crc_sums(a + b).2 == crc_sums(a).2 + crc_sums(b).2,
    decreases b.len(),
{
    if b.len() == 0 {
        assert(a + b =~= a);
    } else {
        lemma_crc_sums_concat(a, b.drop_last());
        assert((a + b).drop_last() =~= a + b.drop_last());
        assert((a + b).last() == b.last());
    }
}

/// One result counts its own CRC counts, or nothing where it carries none.
pub proof fn lemma_crc_sums_single(r: ConvertResult)
    ensures
        crc_sums(seq![r]) == match r.crc_stats {
            Some(s) => (s.total as nat, s.passed as nat, s.failed as nat),
            None => (0nat, 0nat, 0nat),
        },
{
    let e = Seq::<ConvertResult>::empty();
    assert(crc_sums(e) == (0nat, 0nat, 0nat));
    assert(seq![r].drop_last() =~= e);
    assert(seq![r].last() == r);
}

/// The totals depend on the CRC counts of the results alone: results that
/// differ only in their other fields (whether they succeeded, their
/// paths, their messages) have the same totals.
pub proof fn lemma_crc_sums_ignore_other_fields(a: Seq<ConvertResult>, b: Seq<ConvertResult>)
    requires
        a.len() == b.len(),
        forall|i: int| 0 <= i < a.len() ==> (#[trigger] a[i]).crc_stats == b[i].crc_stats,
    ensures
        crc_sums(a) == crc_sums(b),
    decreases a.len(),
{
    if a.len() > 0 {
        lemma_crc_sums_ignore_other_fields(a.drop_last(), b.drop_last());
        assert(a.last() == a[a.len() - 1]);
        assert(b.last() == b[b.len() - 1]);
    }
}

/* The state of a conversion */

/// The number of successful conversions among `results`.
pub open spec fn ok_count(results: Seq<ConvertResult>) -> nat
    decreases results.len(),
{
    if results.len() == 0 {
        0
    } else {
        ok_count(results.drop_last()) + if results.last().ok {
            1nat
        } else {
            0nat
        }
    }
}

pub open spec fn converting_status(done: nat, total: nat) -> Seq<char> {
    "Converting "@ + decimal_text(done) + "/"@ + decimal_text(total) + " ..."@
}

pub open spec fn done_status(ok: nat, failed: nat, done: nat) -> Seq<char> {
    "Done — "@ + decimal_text(ok) + " succeeded, "@ + decimal_text(failed) + " failed, "@
        + decimal_text(done) + " total"@
}

/// How far a conversion has come, as the window shows it.
pub struct Progress {
    /// The number of files that the conversion converts.
    pub total_files: usize,
    pub is_running: bool,
    /// The line of the status bar.
    pub status: String,
}

fn converting_text(done: usize, total: usize) -> (text: String)
    ensures
        text@ == converting_status(done as nat, total as nat),
{
    let mut text = String::from_str("Converting ");
    text.append(decimal(done).as_str());
    text.append("/");
    text.append(decimal(total).as_str());
    text.append(" ...");
    text
}

/// The successes of two runs of results add up.
pub proof fn lemma_ok_count_concat(a: Seq<ConvertResult>, b: Seq<ConvertResult>)
    ensures
        ok_count(a + b) == ok_count(a) + ok_count(b),
    decreases b.len(),
{
    if b.len() == 0 {
        assert(a + b =~= a);
    } else {
        lemma_ok_count_concat(a, b.drop_last());
        assert((a + b).drop_last() =~= a + b.drop_last());
        assert((a + b).last() == b.last());
    }
}

/// Where every result succeeded, all of them count as successes; where
/// none did, none does.
pub proof fn lemma_ok_count_all_or_none(results: Seq<ConvertResult>)
    ensures
        (forall|i: int| 0 <= i < results.len() ==> (#[trigger] results[i]).ok) ==> ok_count(results)
            == results.len(),
        (forall|i: int| 0 <= i < results.len() ==> !(#[trigger] results[i]).ok) ==> ok_count(results)
            == 0,
    decreases results.len(),
{
    if results.len() > 0 {
        lemma_ok_count_all_or_none(results.drop_last());
        assert(results.last() == results[results.len() - 1]);
        assert(forall|i: int| 0 <= i < results.len() - 1 ==> results.drop_last()[i] == results[i]);
    }
}

/// The successes are the results whose `ok` is set, and the failures the
/// results whose `ok` is not.
pub proof fn lemma_ok_count_counts_ok_results(results: Seq<ConvertResult>)
    ensures
        ok_count(results) == results.filter(|r: ConvertResult| r.ok).len(),
        results.len() - ok_count(results) == results.filter(|r: ConvertResult| !r.ok).len(),
    decreases results.len(),
{
    reveal(Seq::filter);
    if results.len() > 0 {
        lemma_ok_count_counts_ok_results(results.drop_last());
    }
}

proof fn lemma_ok_count_le(results: Seq<ConvertResult>)
    ensures
        ok_count(results) <= results.len(),
    decreases results.len(),
{
    if results.len() > 0 {
        lemma_ok_count_le(results.drop_last());
    }
}

/// The number of successful conversions.
pub fn count_ok(results: &[ConvertResult]) -> (ok: usize)
    ensures
        ok == ok_count(results@),
        ok <= results.len(),
{
    let mut ok: usize = 0;
    let mut i: usize = 0;
    assert(results@.take(0) =~= Seq::<ConvertResult>::empty());
    while i < results.len()
        invariant
            i <= results.len(),
            ok == ok_count(results@.take(i as int)),
            ok <= i,
        decreases results.len() - i,
    {
        assert(results@.take(i + 1).drop_last() =~= results@.take(i as int));
        if results[i].ok {
            ok = ok + 1;
        }
        i = i + 1;
    }
    assert(results@.take(results.len() as int) =~= results@);
    ok
}

impl Progress {
    /// Nothing converted yet.
    pub fn new() -> (p: Progress)
        ensures
            p.total_files == 0,
            !p.is_running,
            p.status@ == "Ready"@,
    {
        Progress { total_files: 0, is_running: false, status: String::from_str("Ready") }
    }

    /// Starts a conversion of `total_files` files; with none to convert,
    /// it says so and does not start.
    pub fn start(&mut self, total_files: usize) -> (started: bool)
        ensures
            started == (total_files > 0),
            final(self).total_files == total_files,
            total_files == 0 ==> final(self).is_running == old(self).is_running
                && final(self).status@ == "No convertible files found."@,
            total_files > 0 ==> final(self).is_running && final(self).status@ == converting_status(
                0,
                total_files as nat,
            ),
    {
        self.total_files = total_files;
        if total_files == 0 {
            self.status = String::from_str("No convertible files found.");
            return false;
        }
        self.is_running = true;
        self.status = converting_text(0, total_files);
        true
    }

    /// Takes in the results so far: once there are as many as files to
    /// convert, the conversion is done and the status sums it up.
    pub fn poll(&mut self, results: &[ConvertResult])
        ensures
            final(self).total_files == old(self).total_files,
            !old(self).is_running ==> *final(self) == *old(self),
            old(self).is_running && results.len() >= old(self).total_files ==> final(self).status@
                == "Done — "@ + decimal_text(ok_count(results@)) + " succeeded, "@ + decimal_text(
                (results.len() - ok_count(results@)) as nat,
            ) + " failed, "@ + decimal_text(results.len() as nat) + " total"@,
            old(self).is_running && results.len() >= old(self).total_files ==> !(final(self).is_running)
                && final(self).status@ == done_status(
                ok_count(results@),
                (results.len() - ok_count(results@)) as nat,
                results.len() as nat,
            ),
            old(self).is_running && results.len() < old(self).total_files ==> final(self).is_running
                && final(self).status@ == converting_status(
                results.len() as nat,
                old(self).total_files as nat,
            ),
    {
        if !self.is_running {
            return ;
        }
        let done = results.len();
        if done >= self.total_files {
            self.is_running = false;
            let ok = count_ok(results);
            let fail = done - ok;
            let mut status = String::from_str("Done — ");
            status.append(decimal(ok).as_str());
            status.append(" succeeded, ");
            status.append(decimal(fail).as_str());
            status.append(" failed, ");
            status.append(decimal(done).as_str());
            status.append(" total");
            self.status = status;
        } else {
            self.status = converting_text(done, self.total_files);
        }
    }
}

} // verus!
