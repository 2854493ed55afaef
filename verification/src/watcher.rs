//! Multi-target orchestration state.
//!
//! One store per target, the target's name derived from its admin
//! socket path (the file name with every `.asok` removed). The sampling
//! loop itself performs I/O and waiting, so it lives with the binary;
//! what is decided here, verified, is when a tick fires and how one
//! decoded sample is recorded into one target's store.

use vstd::prelude::*;
use vstd::string::StringExecFns;
use crate::Error;
use crate::asok::Sample;
use crate::store::{WatchResultPerOSD, push_post};
use crate::text::{file_part, remove_occ, file_name_of, remove_all};

verus! {

/// One sampling target's admin socket.
pub struct Asok {
    /// The socket path; the transport that connects to it lives with
    /// the binary.
    pub path: String,
}

impl Asok {
    /// A handle on the admin socket at `path`.
    pub fn from_path(path: &str) -> (a: Asok)
        ensures
            a.path@ == path@,
    {
        Asok { path: String::from_str(path) }
    }
}

/// The target name a socket path denotes: the file name with every
/// `.asok` removed.
pub open spec fn osd_name_spec(path: Seq<char>) -> Seq<char> {
    remove_occ(file_part(path), ".asok"@)
}

/// Derives the target name from a socket path.
pub fn osd_name(path: &str) -> (r: String)
    ensures
        r@ == osd_name_spec(path@),
{
    let f = file_name_of(path);
    remove_all(f.as_str(), ".asok")
}

/// The accumulated stores of all targets, by target name.
pub type WatchResult = Vec<(String, WatchResultPerOSD)>;

/// The watch state: one socket handle and one store per target, in the
/// order the targets were given.
pub struct Watcher {
    pub asoks: Vec<(String, Asok)>,
    pub result: WatchResult,
}

impl Watcher {
    /// Handles and stores pair up, every store well-formed, and each
    /// store's name is its handle's name.
    pub open spec fn wf(&self) -> bool {
        &&& self.asoks@.len() == self.result@.len()
        &&& forall|p: int|
            0 <= p < self.result@.len() ==> (#[trigger] self.result@[p]).1.wf()
                && self.result@[p].0@ == self.asoks@[p].0@
    }

    /// Sets up one empty store per path, named after the path.
    #[verifier::loop_isolation(false)]
    pub fn new(paths: &Vec<String>) -> (w: Watcher)
        ensures
            w.wf(),
            w.asoks@.len() == paths@.len(),
            forall|p: int|
                0 <= p < paths@.len() ==> (#[trigger] w.asoks@[p]).0@ == osd_name_spec(
                    paths@[p]@,
                ) && w.asoks@[p].1.path@ == paths@[p]@ && w.result@[p].1.timestamp@.len() == 0,
    {
        let n = paths.len();
        let mut asoks: Vec<(String, Asok)> = Vec::new();
        let mut result: WatchResult = Vec::new();
        let mut j: usize = 0;
        while j < n
            invariant
                j <= n,
                n == paths@.len(),
                asoks@.len() == j,
                result@.len() == j,
                forall|p: int|
                    0 <= p < j ==> (#[trigger] asoks@[p]).0@ == osd_name_spec(paths@[p]@)
                        && asoks@[p].1.path@ == paths@[p]@ && result@[p].1.timestamp@.len() == 0
                        && result@[p].1.wf() && result@[p].0@ == asoks@[p].0@,
            decreases n - j,
        {
            let name = osd_name(paths[j].as_str());
            let name2 = name.clone();
            asoks.push((name, Asok::from_path(paths[j].as_str())));
            result.push((name2, WatchResultPerOSD::new()));
            j += 1;
        }
        proof {
            assert forall|p: int| 0 <= p < result@.len() implies (#[trigger] result@[p]).1.wf()
                && result@[p].0@ == asoks@[p].0@ by {
                assert(asoks@[p].0@ == osd_name_spec(paths@[p]@));
            }
        }
        Watcher { asoks, result }
    }

    /// Records one decoded sample into the store of the target at
    /// `idx`; the other targets' stores are untouched, and the store's
    /// own outcome is exactly a push's.
    pub fn record_at(&mut self, idx: usize, t: u64, sample: &Sample) -> (r: Result<(), Error>)
        requires
            old(self).wf(),
            idx < old(self).result@.len(),
            sample.wf(),
            sample.i@.len() + sample.f@.len() <= usize::MAX,
        ensures
            final(self).wf(),
            final(self).asoks == old(self).asoks,
            final(self).result@.len() == old(self).result@.len(),
            forall|p: int|
                0 <= p < old(self).result@.len() && p != idx
                    ==> #[trigger] final(self).result@[p] == old(self).result@[p],
            final(self).result@[idx as int].0 == old(self).result@[idx as int].0,
            push_post(
                old(self).result@[idx as int].1,
                final(self).result@[idx as int].1,
                t,
                *sample,
                r,
            ),
    {
        let entry = self.result.remove(idx);
        let (name, mut store) = entry;
        let r = store.push(t, sample);
        self.result.insert(idx, (name, store));
        proof {
            assert(final(self).result@ =~= old(self).result@.update(
                idx as int,
                final(self).result@[idx as int],
            ));
        }
        r
    }
}

/// One decision of the sampling loop: a tick fires when the loop
/// counter is a multiple of the configured interval.
pub fn should_sample(counter: u64, interval: u64) -> (r: bool)
    requires
        interval > 0,
    ensures
        r == (counter % interval == 0),
{
    counter % interval == 0
}

} // verus!
