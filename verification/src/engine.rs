//! The directory-processing engine.
//!
//! The engine is generic over a handler implementing the two-operation
//! log-processing capability: handle one file's contents, and merge all
//! per-file results once at the end.  Callers enumerate the files (that is
//! I/O and stays outside the library), hand the engine each file's path
//! and contents, and the engine drives the handler: every file is
//! attempted exactly once, a failing file is recorded and never aborts its
//! siblings, and the finalize step runs exactly once, after all files.

use vstd::prelude::*;
use crate::BattleToolsError;
use crate::bytes::copy_bytes;

verus! {

/// The capability every analysis provides: per-file handling and a single
/// finalize step.  Contracts live on the implementing types' own methods;
/// the engine relies only on this shape.
pub trait LogHandler<R>: Sized {
    /// Produce this file's result from its raw contents and path.
    fn handle_log_file(&self, raw: &[u8], path: &[u8]) -> Result<R, BattleToolsError>;

    /// Merge the collected per-file results; runs once, after all files.
    fn handle_results(&mut self, results: Vec<R>) -> Result<(), BattleToolsError>;
}

/// Every recorded path names one of the given files.
#[verifier::opaque]
pub open spec fn paths_of(failed: Seq<Vec<u8>>, files: Seq<(Vec<u8>, Vec<u8>)>) -> bool {
    forall|k: int|
        0 <= k < failed.len() ==> exists|j: int|
            0 <= j < files.len() && (#[trigger] failed[k])@ == (#[trigger] files[j]).0@
}

/// Drive `handler` over every file, then finalize once.  Returns the
/// number of files that succeeded and the paths of those that failed:
/// together they account for every file exactly once.  The run fails only
/// when the finalize step fails or when there were files and none
/// succeeded.
#[verifier::loop_isolation(false)]
pub fn process_contents<R, H: LogHandler<R>>(
    handler: &mut H,
    files: &Vec<(Vec<u8>, Vec<u8>)>,
) -> (res: Result<(usize, Vec<Vec<u8>>), BattleToolsError>)
    ensures
        res is Ok ==> res->Ok_0.0 + res->Ok_0.1@.len() == files@.len(),
        res is Ok && files@.len() > 0 ==> res->Ok_0.0 > 0,
        res is Ok ==> paths_of(res->Ok_0.1@, files@),
{
    let mut results: Vec<R> = Vec::new();
    let mut failed: Vec<Vec<u8>> = Vec::new();
    proof {
        reveal(paths_of);
        assert(paths_of(failed@, files@));
    }
    let mut i: usize = 0;
    while i < files.len()
        invariant
            0 <= i <= files@.len(),
            results@.len() + failed@.len() == i,
            paths_of(failed@, files@),
        decreases files@.len() - i,
    {
        let ghost failed_before = failed@;
        match handler.handle_log_file(files[i].1.as_slice(), files[i].0.as_slice()) {
            Result::Ok(r) => {
                results.push(r);
            },
            Result::Err(_) => {
                failed.push(copy_bytes(files[i].0.as_slice()));
                proof {
                    reveal(paths_of);
                    assert forall|k: int|
                        0 <= k < failed@.len() implies exists|j: int|
                            0 <= j < files@.len() && (#[trigger] failed@[k])@ == (
                            #[trigger] files@[j]).0@ by {
                        if k < failed_before.len() {
                            assert(failed@[k] == failed_before[k]);
                            let w = choose|w: int|
                                0 <= w < files@.len() && (#[trigger] failed_before[k])@ == (
                                #[trigger] files@[w]).0@;
                            assert(failed@[k]@ == files@[w].0@);
                        } else {
                            assert(failed@[k]@ == files@[i as int].0@);
                        }
                    }
                    assert(paths_of(failed@, files@));
                }
            },
        }
        i = i + 1;
    }
    let ok_count = results.len();
    match handler.handle_results(results) {
        Result::Ok(()) => {},
        Result::Err(e) => {
            return Result::Err(e);
        },
    }

    if files.len() > 0 && ok_count == 0 {
        return Result::Err(
            BattleToolsError::InvalidLog(
                String::from_str("no file could be processed successfully"),
            ),
        );
    }
    Result::Ok((ok_count, failed))
}

impl LogHandler<Option<Vec<u8>>> for crate::search::BattleSearcher {
    fn handle_log_file(&self, raw: &[u8], path: &[u8]) -> Result<Option<Vec<u8>>, BattleToolsError> {
        crate::search::BattleSearcher::handle_log_file(self, raw, path)
    }

    fn handle_results(&mut self, results: Vec<Option<Vec<u8>>>) -> Result<(), BattleToolsError> {
        self.finish(results)
    }
}

impl LogHandler<Option<crate::stats::StatEntry>> for crate::stats::StatisticsDirectoryParser {
    fn handle_log_file(&self, raw: &[u8], path: &[u8]) -> Result<
        Option<crate::stats::StatEntry>,
        BattleToolsError,
    > {
        crate::stats::StatisticsDirectoryParser::handle_log_file(self, raw, path)
    }

    fn handle_results(&mut self, results: Vec<Option<crate::stats::StatEntry>>) -> Result<
        (),
        BattleToolsError,
    > {
        crate::stats::StatisticsDirectoryParser::handle_results(self, results)
    }
}

impl LogHandler<(Vec<u8>, u64)> for crate::anonymize::AnonymizingDirectoryParser {
    fn handle_log_file(&self, raw: &[u8], path: &[u8]) -> Result<(Vec<u8>, u64), BattleToolsError> {
        crate::anonymize::AnonymizingDirectoryParser::handle_log_file(self, raw, path)
    }

    fn handle_results(&mut self, results: Vec<(Vec<u8>, u64)>) -> Result<(), BattleToolsError> {
        self.finish(results)
    }
}

} // verus!
