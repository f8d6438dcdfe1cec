//! The decisions of the downloader: which files to fetch and where to put
//! them, when to try again, and how the outcomes add up.

use vstd::prelude::*;

use crate::config::{MAX_DOWNLOAD_RETRIES, RETRY_DELAY_SECS};
use crate::paths::is_absolute;
use crate::text::{chars_of, string_of};

verus! {

/// A file to download: from `url` to `dest_path`, shown as `display_name`.
#[derive(Clone, Debug)]
pub struct DownloadTask {
    pub url: String,
    pub dest_path: String,
    pub display_name: String,
}

/// How many downloads there are and how many of them succeeded or failed.
#[derive(Debug)]
pub struct DownloadStats {
    pub total: usize,
    pub completed: usize,
    pub failed: usize,
}

/// How many of the outcomes are `want`.
pub open spec fn count_of(outcomes: Seq<bool>, want: bool) -> nat
    decreases outcomes.len(),
{
    if outcomes.len() == 0 {
        0
    } else {
        count_of(outcomes.drop_last(), want) + if outcomes.last() == want {
            1nat
        } else {
            0nat
        }
    }
}

impl DownloadStats {
    /// Statistics for `total` downloads of which none has finished.
    pub fn new(total: usize) -> (r: Self)
        ensures
            r.total == total,
            r.completed == 0,
            r.failed == 0,
    {
        DownloadStats { total, completed: 0, failed: 0 }
    }

    /// The statistics of a run whose downloads ended as `outcomes` says
    /// (`true` for success).
    pub fn tally(outcomes: &Vec<bool>) -> (r: Self)
        ensures
            r.total == outcomes@.len(),
            r.completed == count_of(outcomes@, true),
            r.failed == count_of(outcomes@, false),
    {
        let mut stats = DownloadStats::new(outcomes.len());
        let mut i: usize = 0;
        while i < outcomes.len()
            invariant
                i <= outcomes@.len(),
                stats.total == outcomes@.len(),
                stats.completed == count_of(outcomes@.take(i as int), true),
                stats.failed == count_of(outcomes@.take(i as int), false),
                stats.completed + stats.failed == i,
            decreases outcomes@.len() - i,
        {
            assert(outcomes@.take(i + 1).drop_last() =~= outcomes@.take(i as int));
            if outcomes[i] {
                stats.completed = stats.completed + 1;
            } else {
                stats.failed = stats.failed + 1;
            }
            i = i + 1;
        }
        assert(outcomes@.take(outcomes@.len() as int) =~= outcomes@);
        stats
    }

    /// Whether no download failed.
    pub fn all_succeeded(&self) -> (r: bool)
        ensures
            r == (self.failed == 0),
    {
        self.failed == 0
    }
}

/// What to do after an attempt.
#[derive(Clone, Copy, Debug, PartialEq, Eq, Structural)]
pub enum RetryStep {
    /// The file was fetched.
    Done,
    /// Wait this many seconds, then make the next attempt.
    RetryAfter(u64),
    /// Every attempt failed.
    GiveUp,
}

/// The step after attempt number `attempt` (counted from one) ended.
pub fn retry_step(attempt: u32, succeeded: bool) -> (r: RetryStep)
    requires
        1 <= attempt <= MAX_DOWNLOAD_RETRIES,
    ensures
        succeeded ==> r == RetryStep::Done,
        !succeeded && attempt < MAX_DOWNLOAD_RETRIES ==> r == RetryStep::RetryAfter(
            RETRY_DELAY_SECS,
        ),
        !succeeded && attempt == MAX_DOWNLOAD_RETRIES ==> r == RetryStep::GiveUp,
{
    if succeeded {
        RetryStep::Done
    } else if attempt < MAX_DOWNLOAD_RETRIES {
        RetryStep::RetryAfter(RETRY_DELAY_SECS)
    } else {
        RetryStep::GiveUp
    }
}

/// `rel` joined onto `base` as paths join: an absolute `rel` replaces
/// `base`, and one slash stands between them.
pub open spec fn join_text(base: Seq<char>, rel: Seq<char>) -> Seq<char> {
    if is_absolute(rel) || base.len() == 0 {
        rel
    } else if base.last() == '/' {
        base + rel
    } else {
        base + seq!['/'] + rel
    }
}

/// The file a URL names below the prefix; the bare prefix names the index
/// page.
pub open spec fn file_of(url: Seq<char>, prefix: Seq<char>) -> Seq<char> {
    if url.len() == prefix.len() {
        "index.html"@
    } else {
        url.skip(prefix.len() as int)
    }
}

/// Whether `prefix` starts `s`.
pub open spec fn has_prefix(s: Seq<char>, prefix: Seq<char>) -> bool {
    prefix.len() <= s.len() && s.take(prefix.len() as int) == prefix
}

fn join_chars(base: &Vec<char>, rel: &Vec<char>) -> (r: Vec<char>)
    ensures
        r@ == join_text(base@, rel@),
{
    let mut out: Vec<char> = Vec::new();
    if !(rel.len() > 0 && rel[0] == '/') && base.len() > 0 {
        let mut i: usize = 0;
        while i < base.len()
            invariant
                i <= base@.len(),
                out@ == base@.take(i as int),
            decreases base@.len() - i,
        {
            out.push(base[i]);
            i = i + 1;
            assert(out@ =~= base@.take(i as int));
        }
        assert(base@.take(base@.len() as int) =~= base@);
        if base[base.len() - 1] != '/' {
            out.push('/');
        }
    }
    let ghost head = out@;
    let mut j: usize = 0;
    while j < rel.len()
        invariant
            j <= rel@.len(),
            out@ == head + rel@.take(j as int),
        decreases rel@.len() - j,
    {
        out.push(rel[j]);
        j = j + 1;
        assert(out@ =~= head + rel@.take(j as int));
    }
    assert(rel@.take(rel@.len() as int) =~= rel@);
    assert(out@ =~= join_text(base@, rel@));
    out
}

fn skip_chars(cs: &Vec<char>, n: usize) -> (r: Vec<char>)
    requires
        n <= cs@.len(),
    ensures
        r@ == cs@.skip(n as int),
{
    let mut out: Vec<char> = Vec::new();
    let mut i: usize = n;
    while i < cs.len()
        invariant
            n <= i <= cs@.len(),
            out@ == cs@.subrange(n as int, i as int),
        decreases cs@.len() - i,
    {
        out.push(cs[i]);
        i = i + 1;
        assert(out@ =~= cs@.subrange(n as int, i as int));
    }
    assert(out@ =~= cs@.skip(n as int));
    out
}

fn starts_with_chars(s: &Vec<char>, prefix: &Vec<char>) -> (r: bool)
    ensures
        r == has_prefix(s@, prefix@),
{
    if prefix.len() > s.len() {
        return false;
    }
    let mut i: usize = 0;
    while i < prefix.len()
        invariant
            prefix@.len() <= s@.len(),
            i <= prefix@.len(),
            forall|j: int| 0 <= j < i ==> s@[j] == prefix@[j],
        decreases prefix@.len() - i,
    {
        if s[i] != prefix[i] {
            assert(s@.take(prefix@.len() as int)[i as int] != prefix@[i as int]);
            return false;
        }
        i = i + 1;
    }
    assert(s@.take(prefix@.len() as int) =~= prefix@);
    true
}

/// One task per URL, in order: the file named below `prefix` goes to that
/// path under `install_dir`. Fails with the first URL that does not start
/// with `prefix`.
pub fn create_download_tasks(urls: &Vec<String>, prefix: &str, install_dir: &str) -> (r: Result<
    Vec<DownloadTask>,
    String,
>)
    ensures
        r matches Ok(ts) ==> {
            &&& ts@.len() == urls@.len()
            &&& forall|i: int|
                0 <= i < ts@.len() ==> {
                    let u = urls@[i]@;
                    let f = file_of(u, prefix@);
                    &&& has_prefix(u, prefix@)
                    &&& (#[trigger] ts@[i]).url@ == u
                    &&& ts@[i].display_name@ == f
                    &&& ts@[i].dest_path@ == join_text(install_dir@, f)
                }
        },
        r matches Err(bad) ==> exists|i: int|
            0 <= i < urls@.len() && bad@ == urls@[i]@ && !has_prefix(#[trigger] urls@[i]@, prefix@)
                && forall|j: int| 0 <= j < i ==> has_prefix(#[trigger] urls@[j]@, prefix@),
        r is Ok <==> forall|i: int| 0 <= i < urls@.len() ==> has_prefix(#[trigger] urls@[i]@, prefix@),
{
    let p = chars_of(prefix);
    let base = chars_of(install_dir);
    let mut tasks: Vec<DownloadTask> = Vec::new();
    let mut i: usize = 0;
    while i < urls.len()
        invariant
            p@ == prefix@,
            base@ == install_dir@,
            i <= urls@.len(),
            tasks@.len() == i,
            forall|j: int| 0 <= j < i ==> has_prefix(#[trigger] urls@[j]@, prefix@),
            forall|j: int|
                0 <= j < i ==> {
                    let u = urls@[j]@;
                    let f = file_of(u, prefix@);
                    &&& (#[trigger] tasks@[j]).url@ == u
                    &&& tasks@[j].display_name@ == f
                    &&& tasks@[j].dest_path@ == join_text(install_dir@, f)
                },
        decreases urls@.len() - i,
    {
        let u = chars_of(urls[i].as_str());
        if !starts_with_chars(&u, &p) {
            return Err(string_of(u.as_slice()));
        }
        let file: Vec<char> = if u.len() == p.len() {
            let idx = chars_of("index.html");
            idx
        } else {
            skip_chars(&u, p.len())
        };
        let dest = join_chars(&base, &file);
        tasks.push(
            DownloadTask {
                url: string_of(u.as_slice()),
                dest_path: string_of(dest.as_slice()),
                display_name: string_of(file.as_slice()),
            },
        );
        i = i + 1;
    }
    Ok(tasks)
}

} // verus!
