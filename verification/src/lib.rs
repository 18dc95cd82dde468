//! A plagiarism detection engine: text normalization, n-gram fragment
//! indexing with location tracking, metric-based fragment matching across
//! trusted and untrusted corpora, and highlighted-region projection for
//! reporting.

use vstd::prelude::*;

pub mod highlight;
pub mod plagiarism_database;
pub mod string_compare;
pub mod text_utils;

use crate::plagiarism_database::cleantext_merge;
use crate::plagiarism_database::ignore_set_of;
use crate::plagiarism_database::ingest;
use crate::plagiarism_database::trusted_sweep;
use crate::plagiarism_database::untrusted_sweep;
use crate::plagiarism_database::EngineConfig;
use crate::plagiarism_database::EntryAbs;
use crate::plagiarism_database::PlagiarismDatabase;
use crate::plagiarism_database::PlagiarismResult;
use crate::plagiarism_database::TextOwnerID;

verus! {

/// Indicates which metric is being used for plagiarism comparison.
#[derive(Copy, Clone, PartialEq, Eq, Structural, Debug)]
pub enum Metric {
    /// Check for equality between strings.
    Equal,
    /// Check that the Levenshtein distance between strings is at most
    /// a given bound.
    Lev,
}

/// Setting fields parsed by the CLI frontend.
pub struct AppSettings {
    pub n: usize,
    pub s: usize,
    pub metric: Metric,
    pub udir: String,
    pub tdir: Option<String>,
    pub idir: Option<String>,
    pub output_cli: bool,
    pub output_html: bool,
    pub open_html_after: bool,
}

/// Loads every given (owner, raw text) source into a fresh store — the
/// ignore corpus first, then the untrusted and the trusted texts — and
/// runs both the untrusted-against-untrusted and the
/// trusted-against-untrusted sweeps. Returns the two result lists and the
/// merged owner-to-cleaned-words list for display.
pub fn run_plagiarism_checks(
    appsettings: &AppSettings,
    untrusted_contents: Vec<(String, String)>,
    trusted_contents: Vec<(String, String)>,
    ignored_texts: Vec<String>,
) -> (r: (Vec<PlagiarismResult>, Vec<PlagiarismResult>, Vec<(TextOwnerID, Vec<String>)>))
    requires
        appsettings.n >= 1,
    ensures
        ({
            let cfg = EngineConfig {
                n: appsettings.n as nat,
                cutoff: appsettings.s as nat,
                metric: appsettings.metric,
                ignore: ignore_set_of(ignored_texts.deep_view(), appsettings.n as nat),
            };
            let u = ingest(Seq::<EntryAbs>::empty(), untrusted_contents.deep_view());
            let t = ingest(Seq::<EntryAbs>::empty(), trusted_contents.deep_view());
            &&& r.0.deep_view() == untrusted_sweep(cfg, u, u.len() as int)
            &&& r.1.deep_view() == trusted_sweep(cfg, t, u, t.len() as int)
            &&& r.2.deep_view() == cleantext_merge(t, u)
        }),
{
    let ghost uc = untrusted_contents.deep_view();
    let ghost tc = trusted_contents.deep_view();
    // Add text to the DB
    let mut db = PlagiarismDatabase::new(
        appsettings.n,
        appsettings.s,
        appsettings.metric,
        ignored_texts,
    );
    let ghost cfg = db.config();
    let mut i: usize = 0;
    while i < untrusted_contents.len()
        invariant
            db.wf(),
            cfg == db.config(),
            uc == untrusted_contents.deep_view(),
            i <= uc.len(),
            db.trusted_abs() == Seq::<EntryAbs>::empty(),
            db.untrusted_abs() == ingest(Seq::<EntryAbs>::empty(), uc.take(i as int)),
        decreases uc.len() - i,
    {
        proof {
            assert(uc.take(i + 1 as int).drop_last() =~= uc.take(i as int));
            assert(uc[i as int] == (untrusted_contents@[i as int].0@, untrusted_contents@[
                i as int
            ].1@));
        }
        db.add_untrusted_text(
            untrusted_contents[i].0.as_str(),
            untrusted_contents[i].1.as_str(),
        );
        i = i + 1;
    }
    proof {
        assert(uc.take(uc.len() as int) =~= uc);
    }
    // Try to add trusted text if specified
    let mut j: usize = 0;
    while j < trusted_contents.len()
        invariant
            db.wf(),
            cfg == db.config(),
            tc == trusted_contents.deep_view(),
            j <= tc.len(),
            db.untrusted_abs() == ingest(Seq::<EntryAbs>::empty(), uc),
            db.trusted_abs() == ingest(Seq::<EntryAbs>::empty(), tc.take(j as int)),
        decreases tc.len() - j,
    {
        proof {
            assert(tc.take(j + 1 as int).drop_last() =~= tc.take(j as int));
            assert(tc[j as int] == (trusted_contents@[j as int].0@, trusted_contents@[
                j as int
            ].1@));
        }
        db.add_trusted_text(trusted_contents[j].0.as_str(), trusted_contents[j].1.as_str());
        j = j + 1;
    }
    proof {
        assert(tc.take(tc.len() as int) =~= tc);
    }
    // Run both inter-source plagiarism and external-source-based checks
    let ut_result = db.check_untrusted_plagiarism();
    let t_result = db.check_trusted_plagiarism();
    let all_cleantext = db.get_all_cleantext();
    (ut_result, t_result, all_cleantext)
}

} // verus!
