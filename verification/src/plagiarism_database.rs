//! The corpus store and the matching engine.
//!
//! Texts are ingested per owner into a trusted and an untrusted partition,
//! normalized and indexed into n-gram fragments with their locations, and
//! compared pairwise under the configured similarity metric.

use crate::string_compare::is_match;
use crate::string_compare::is_plagiarised;
use crate::text_utils::clean_text;
use crate::text_utils::extract_clean_word_ngrams;
use crate::text_utils::ngram_seq;
use crate::text_utils::tokens_of;
use crate::Metric;
use vstd::prelude::*;

verus! {

pub type TextOwnerID = String;

/// (start index (inclusive), end index (exclusive)) of a fragment's words
/// within a text's normalized token sequence; the window always spans
/// exactly n tokens, so the end index is the start index plus n.
pub type FragmentLocation = (usize, usize);

/// First-occurrence deduplication of a fragment sequence: keeps the first
/// appearance of every distinct fragment, in order.
pub open spec fn dedup(s: Seq<Seq<char>>) -> Seq<Seq<char>>
    decreases s.len(),
{
    if s.len() == 0 {
        Seq::empty()
    } else {
        let d = dedup(s.drop_last());
        if d.contains(s.last()) {
            d
        } else {
            d.push(s.last())
        }
    }
}

/// The fragments of `fs` that are not in the ignore set, in order.
pub open spec fn remove_ignored(fs: Seq<Seq<char>>, ignore: Set<Seq<char>>) -> Seq<Seq<char>>
    decreases fs.len(),
{
    if fs.len() == 0 {
        Seq::empty()
    } else {
        let d = remove_ignored(fs.drop_last(), ignore);
        if ignore.contains(fs.last()) {
            d
        } else {
            d.push(fs.last())
        }
    }
}

/// The locations `(start, start + n)` of the windows among the first `m`
/// window positions whose fragment equals `f`, in increasing order.
pub open spec fn occurrences_upto(ngrams: Seq<Seq<char>>, n: nat, f: Seq<char>, m: int) -> Seq<
    FragmentLocation,
>
    decreases m,
{
    if m <= 0 {
        Seq::empty()
    } else {
        let prev = occurrences_upto(ngrams, n, f, m - 1);
        if ngrams[m - 1] == f {
            prev.push((((m - 1) as usize), ((m - 1 + n) as usize)))
        } else {
            prev
        }
    }
}

/// All locations of the fragment `f` over the whole window sequence.
pub open spec fn occurrences(ngrams: Seq<Seq<char>>, n: nat, f: Seq<char>) -> Seq<FragmentLocation> {
    occurrences_upto(ngrams, n, f, ngrams.len() as int)
}

/// Every member of a deduplicated sequence is a member of the original
/// sequence and conversely, and no fragment appears twice.
pub proof fn lemma_dedup(s: Seq<Seq<char>>)
    ensures
        forall|x: Seq<char>|
            #![trigger dedup(s).contains(x)]
            #![trigger s.contains(x)]
            dedup(s).contains(x) <==> s.contains(x),
        forall|i: int, j: int|
            0 <= i < j < dedup(s).len() ==> dedup(s)[i] != dedup(s)[j],
    decreases s.len(),
{
    if s.len() > 0 {
        let d = dedup(s.drop_last());
        lemma_dedup(s.drop_last());
        assert forall|x: Seq<char>| s.contains(x) implies dedup(s).contains(x) by {
            let i = choose|i: int| 0 <= i < s.len() && s[i] == x;
            if i < s.len() - 1 {
                assert(s.drop_last()[i] == x);
                assert(s.drop_last().contains(x));
                let j = choose|j: int| 0 <= j < d.len() && d[j] == x;
                assert(dedup(s)[j] == x);
            } else {
                if d.contains(x) {
                    let j = choose|j: int| 0 <= j < d.len() && d[j] == x;
                    assert(dedup(s)[j] == x);
                } else {
                    assert(dedup(s)[dedup(s).len() - 1] == x);
                }
            }
        }
        assert forall|x: Seq<char>| dedup(s).contains(x) implies s.contains(x) by {
            let j = choose|j: int| 0 <= j < dedup(s).len() && dedup(s)[j] == x;
            if j < d.len() {
                assert(d[j] == x);
                assert(d.contains(x));
                let i = choose|i: int| 0 <= i < s.drop_last().len() && s.drop_last()[i] == x;
                assert(s[i] == x);
            } else {
                assert(x == s.last());
                assert(s[s.len() - 1] == x);
            }
        }
    }
}

/// Ignore filtering keeps exactly the fragments outside the ignore set.
pub proof fn lemma_remove_ignored(fs: Seq<Seq<char>>, ignore: Set<Seq<char>>)
    ensures
        forall|x: Seq<char>|
            #![trigger remove_ignored(fs, ignore).contains(x)]
            #![trigger fs.contains(x)]
            remove_ignored(fs, ignore).contains(x) <==> (fs.contains(x) && !ignore.contains(x)),
    decreases fs.len(),
{
    if fs.len() > 0 {
        let d = remove_ignored(fs.drop_last(), ignore);
        lemma_remove_ignored(fs.drop_last(), ignore);
        assert forall|x: Seq<char>| fs.contains(x) && !ignore.contains(x) implies remove_ignored(
            fs,
            ignore,
        ).contains(x) by {
            let i = choose|i: int| 0 <= i < fs.len() && fs[i] == x;
            if i < fs.len() - 1 {
                assert(fs.drop_last()[i] == x);
                assert(fs.drop_last().contains(x));
                let j = choose|j: int| 0 <= j < d.len() && d[j] == x;
                assert(remove_ignored(fs, ignore)[j] == x);
            } else {
                assert(remove_ignored(fs, ignore).last() == x);
            }
        }
        assert forall|x: Seq<char>| remove_ignored(fs, ignore).contains(x) implies (fs.contains(x)
            && !ignore.contains(x)) by {
            let j = choose|j: int|
                0 <= j < remove_ignored(fs, ignore).len() && remove_ignored(fs, ignore)[j] == x;
            if j < d.len() {
                assert(d[j] == x);
                assert(d.contains(x));
                let i = choose|i: int| 0 <= i < fs.drop_last().len() && fs.drop_last()[i] == x;
                assert(fs[i] == x);
            } else {
                assert(x == fs.last());
                assert(fs[fs.len() - 1] == x);
            }
        }
    }
}

/// Checks whether a string occurs in a vector of strings.
fn contains_string(v: &Vec<String>, s: &String) -> (r: bool)
    ensures
        r == v.deep_view().contains(s@),
{
    let mut i: usize = 0;
    while i < v.len()
        invariant
            i <= v@.len(),
            forall|k: int| 0 <= k < i ==> v.deep_view()[k] != s@,
        decreases v@.len() - i,
    {
        if v[i].eq(s) {
            assert(v.deep_view()[i as int] == s@);
            return true;
        }
        i = i + 1;
    }
    false
}

/// Checks whether a fragment string occurs as a key of the location list.
fn contains_key(m: &Vec<(String, Vec<FragmentLocation>)>, s: &String) -> (r: bool)
    ensures
        r == m.deep_view().map_values(|p: (Seq<char>, Seq<FragmentLocation>)| p.0).contains(s@),
{
    let ghost keys = m.deep_view().map_values(|p: (Seq<char>, Seq<FragmentLocation>)| p.0);
    let mut i: usize = 0;
    while i < m.len()
        invariant
            i <= m@.len(),
            keys == m.deep_view().map_values(|p: (Seq<char>, Seq<FragmentLocation>)| p.0),
            forall|k: int| 0 <= k < i ==> keys[k] != s@,
        decreases m@.len() - i,
    {
        if m[i].0.eq(s) {
            assert(keys[i as int] == s@);
            return true;
        }
        i = i + 1;
    }
    false
}

/// The mathematical value of a `PlagiarismResult`.
pub struct ResultView {
    pub owner_id1: Seq<char>,
    pub owner_id2: Seq<char>,
    pub matching_fragments: Seq<(Seq<char>, Seq<char>)>,
    pub matching_fragments_locations: Seq<(Seq<FragmentLocation>, Seq<FragmentLocation>)>,
    pub trusted_owner1: bool,
    pub equal_fragments: bool,
}

/// Report for plagiarism between two owners.
#[derive(Debug)]
pub struct PlagiarismResult {
    pub owner_id1: TextOwnerID,
    pub owner_id2: TextOwnerID,
    /// Each element is one matching tuple of fragment strings, one from
    /// each source.
    pub matching_fragments: Vec<(String, String)>,
    /// Each element is the locations of one of the matching fragments,
    /// corresponding to each element of `matching_fragments`.
    pub matching_fragments_locations: Vec<(Vec<FragmentLocation>, Vec<FragmentLocation>)>,
    /// Is the first owner a trusted source?
    pub trusted_owner1: bool,
    /// Can we ignore one element of the tuple?
    pub equal_fragments: bool,
}

impl View for PlagiarismResult {
    type V = ResultView;

    open spec fn view(&self) -> ResultView {
        ResultView {
            owner_id1: self.owner_id1@,
            owner_id2: self.owner_id2@,
            matching_fragments: self.matching_fragments.deep_view(),
            matching_fragments_locations: self.matching_fragments_locations.deep_view(),
            trusted_owner1: self.trusted_owner1,
            equal_fragments: self.equal_fragments,
        }
    }
}

impl DeepView for PlagiarismResult {
    type V = ResultView;

    open spec fn deep_view(&self) -> ResultView {
        self.view()
    }
}

/// The abstract value of one ingested text: its owner and its normalized
/// word tokens. Everything else the store keeps for a text is derived
/// from these and the configuration.
pub struct EntryAbs {
    pub owner: Seq<char>,
    pub words: Seq<Seq<char>>,
}

/// The engine configuration as mathematical values.
pub struct EngineConfig {
    pub n: nat,
    pub cutoff: nat,
    pub metric: Metric,
    pub ignore: Set<Seq<char>>,
}

/// The fragment strings of a text that take part in matching: the distinct
/// n-grams of its words, in first-occurrence order, minus the ignore set.
pub open spec fn frag_seq_of(words: Seq<Seq<char>>, n: nat, ignore: Set<Seq<char>>) -> Seq<
    Seq<char>,
> {
    remove_ignored(dedup(ngram_seq(words, n)), ignore)
}

/// No two entries share an owner id.
pub open spec fn owners_unique(s: Seq<EntryAbs>) -> bool {
    forall|i: int, j: int| 0 <= i < j < s.len() ==> s[i].owner != s[j].owner
}

/// Whether some entry of `s` has the owner id `o`.
pub open spec fn has_owner(s: Seq<EntryAbs>, o: Seq<char>) -> bool {
    exists|i: int| 0 <= i < s.len() && s[i].owner == o
}

/// The index of the entry with owner id `o`.
pub open spec fn owner_index(s: Seq<EntryAbs>, o: Seq<char>) -> int {
    choose|i: int| 0 <= i < s.len() && s[i].owner == o
}

/// Inserting a text for an owner: replaces the owner's entry if one
/// exists, otherwise appends a new entry.
pub open spec fn upsert_abs(s: Seq<EntryAbs>, e: EntryAbs) -> Seq<EntryAbs> {
    if has_owner(s, e.owner) {
        s.update(owner_index(s, e.owner), e)
    } else {
        s.push(e)
    }
}

/// The union of the n-gram fragment sets of the normalized ignore texts.
pub open spec fn ignore_set_of(texts: Seq<Seq<char>>, n: nat) -> Set<Seq<char>>
    decreases texts.len(),
{
    if texts.len() == 0 {
        Set::empty()
    } else {
        ignore_set_of(texts.drop_last(), n).union(
            ngram_seq(tokens_of(texts.last()), n).to_set(),
        )
    }
}

/// A single owner's text, broken into fragments.
struct TextEntry {
    owner: TextOwnerID,
    /// Cleaned text (word by word) for usage in printing.
    clean_text_words: Vec<String>,
    /// Unique string fragments in the text, after ignore filtering.
    fragments: Vec<String>,
    /// Mapping between fragment strings and where in the text they are
    /// located, built from all n-grams before ignore filtering.
    fragment_locations: Vec<(String, Vec<FragmentLocation>)>,
}

/// The abstract value of a stored entry.
spec fn entry_abs(e: TextEntry) -> EntryAbs {
    EntryAbs { owner: e.owner@, words: e.clean_text_words.deep_view() }
}

/// The derived fields of an entry agree with its words and the
/// configuration.
spec fn entry_wf(e: TextEntry, n: nat, ignore: Set<Seq<char>>) -> bool {
    let ngrams = ngram_seq(e.clean_text_words.deep_view(), n);
    &&& e.fragments.deep_view() == remove_ignored(dedup(ngrams), ignore)
    &&& e.fragment_locations.deep_view().map_values(
        |p: (Seq<char>, Seq<FragmentLocation>)| p.0,
    ) == dedup(ngrams)
    &&& forall|j: int|
        0 <= j < e.fragment_locations@.len() ==> e.fragment_locations.deep_view()[j].1
            == occurrences(ngrams, n, e.fragment_locations.deep_view()[j].0)
}

/// Stores the corpus of trusted and untrusted texts.
pub struct PlagiarismDatabase {
    /// Constant value for the n-gram size.
    n: usize,
    /// Constant value for the metric cutoff value.
    s: usize,
    /// Metric to use.
    metric: Metric,
    /// Processed text entries of trusted owners.
    trusted_texts: Vec<TextEntry>,
    /// Processed text entries of untrusted owners.
    untrusted_texts: Vec<TextEntry>,
    /// Fragment strings to ignore.
    ignored_texts: Vec<String>,
}

impl PlagiarismDatabase {
    /// The configuration this store was built with.
    pub closed spec fn config(&self) -> EngineConfig {
        EngineConfig {
            n: self.n as nat,
            cutoff: self.s as nat,
            metric: self.metric,
            ignore: self.ignored_texts.deep_view().to_set(),
        }
    }

    /// The trusted entries, in insertion order.
    pub closed spec fn trusted_abs(&self) -> Seq<EntryAbs> {
        Seq::new(self.trusted_texts@.len(), |i: int| entry_abs(self.trusted_texts@[i]))
    }

    /// The untrusted entries, in insertion order.
    pub closed spec fn untrusted_abs(&self) -> Seq<EntryAbs> {
        Seq::new(self.untrusted_texts@.len(), |i: int| entry_abs(self.untrusted_texts@[i]))
    }

    /// Well-formedness: the fragment width is positive, owner ids are
    /// unique within each partition, and every entry's fragments and
    /// locations are derived from its words.
    pub closed spec fn wf(&self) -> bool {
        &&& self.n >= 1
        &&& owners_unique(self.trusted_abs())
        &&& owners_unique(self.untrusted_abs())
        &&& forall|i: int|
            0 <= i < self.trusted_texts@.len() ==> entry_wf(
                #[trigger] self.trusted_texts@[i],
                self.n as nat,
                self.config().ignore,
            )
        &&& forall|i: int|
            0 <= i < self.untrusted_texts@.len() ==> entry_wf(
                #[trigger] self.untrusted_texts@[i],
                self.n as nat,
                self.config().ignore,
            )
    }
}

/// Collects the locations of every window whose fragment equals `key`.
fn collect_occurrences(ngrams: &Vec<String>, key: &String, n: usize) -> (r: Vec<FragmentLocation>)
    requires
        ngrams@.len() == 0 || (ngrams@.len() - 1) + n <= usize::MAX,
    ensures
        r@ == occurrences(ngrams.deep_view(), n as nat, key@),
{
    let mut r: Vec<FragmentLocation> = Vec::new();
    let mut i: usize = 0;
    while i < ngrams.len()
        invariant
            i <= ngrams@.len(),
            ngrams@.len() == 0 || (ngrams@.len() - 1) + n <= usize::MAX,
            r@ == occurrences_upto(ngrams.deep_view(), n as nat, key@, i as int),
        decreases ngrams@.len() - i,
    {
        if ngrams[i].eq(key) {
            r.push((i, i + n));
        }
        i = i + 1;
    }
    r
}

/// Keeps the fragments that are not in the ignored list, in order.
fn filter_ignored(fragments: &Vec<String>, ignored: &Vec<String>) -> (r: Vec<String>)
    ensures
        r.deep_view() == remove_ignored(fragments.deep_view(), ignored.deep_view().to_set()),
{
    let ghost ignore_set = ignored.deep_view().to_set();
    let mut r: Vec<String> = Vec::new();
    let mut i: usize = 0;
    while i < fragments.len()
        invariant
            i <= fragments@.len(),
            ignore_set == ignored.deep_view().to_set(),
            r.deep_view() == remove_ignored(fragments.deep_view().take(i as int), ignore_set),
        decreases fragments@.len() - i,
    {
        let ghost prev = r.deep_view();
        proof {
            assert(fragments.deep_view().take(i + 1 as int).drop_last() =~= fragments.deep_view()
                .take(i as int));
        }
        if !contains_string(ignored, &fragments[i]) {
            r.push(fragments[i].clone());
            assert(r.deep_view() =~= prev.push(fragments.deep_view()[i as int]));
        }
        i = i + 1;
    }
    proof {
        assert(fragments.deep_view().take(fragments@.len() as int) =~= fragments.deep_view());
    }
    r
}

impl PlagiarismDatabase {
    /// Splits a cleaned text into its n-gram fragments, in first-occurrence
    /// order, together with the map from each distinct fragment string to
    /// every window location where it occurs. A window wider than the word
    /// sequence yields an empty fragment list and an empty map.
    pub fn get_textfragments(words: &Vec<String>, n: usize) -> (r: (
        Vec<String>,
        Vec<(String, Vec<FragmentLocation>)>,
    ))
        requires
            n >= 1,
        ensures
            ({
                let ngrams = ngram_seq(words.deep_view(), n as nat);
                &&& r.0.deep_view() == dedup(ngrams)
                &&& r.1.deep_view().map_values(|p: (Seq<char>, Seq<FragmentLocation>)| p.0)
                    == dedup(ngrams)
                &&& forall|j: int|
                    0 <= j < r.1@.len() ==> r.1.deep_view()[j].1 == occurrences(
                        ngrams,
                        n as nat,
                        r.1.deep_view()[j].0,
                    )
                &&& forall|j1: int, j2: int|
                    0 <= j1 < j2 < r.0@.len() ==> r.0.deep_view()[j1] != r.0.deep_view()[j2]
                &&& forall|f: Seq<char>|
                    #![trigger r.0.deep_view().contains(f)]
                    #![trigger ngrams.contains(f)]
                    r.0.deep_view().contains(f) <==> ngrams.contains(f)
                &&& n > words@.len() ==> (r.0@.len() == 0 && r.1@.len() == 0)
            }),
    {
        proof {
            lemma_dedup(ngram_seq(words.deep_view(), n as nat));
        }
        let wlen = words.len();
        let ngrams = extract_clean_word_ngrams(words, n);
        let ghost full = ngrams.deep_view();
        let mut fragments: Vec<String> = Vec::new();
        let mut fragment_locations: Vec<(String, Vec<FragmentLocation>)> = Vec::new();
        let mut i: usize = 0;
        while i < ngrams.len()
            invariant
                full == ngrams.deep_view(),
                full == ngram_seq(words.deep_view(), n as nat),
                full.len() == 0 || (full.len() - 1) + n <= usize::MAX,
                i <= full.len(),
                fragments.deep_view() == dedup(full.take(i as int)),
                fragment_locations.deep_view().map_values(
                    |p: (Seq<char>, Seq<FragmentLocation>)| p.0,
                ) == dedup(full.take(i as int)),
                forall|j: int|
                    0 <= j < fragment_locations@.len() ==> fragment_locations.deep_view()[j].1
                        == occurrences(full, n as nat, fragment_locations.deep_view()[j].0),
            decreases full.len() - i,
        {
            let ghost prev_frags = fragments.deep_view();
            let ghost prev_locs = fragment_locations.deep_view();
            let ghost prev_keys = fragment_locations.deep_view().map_values(
                |p: (Seq<char>, Seq<FragmentLocation>)| p.0,
            );
            proof {
                assert(full.take(i + 1 as int).drop_last() =~= full.take(i as int));
            }
            if !contains_key(&fragment_locations, &ngrams[i]) {
                let occs = collect_occurrences(&ngrams, &ngrams[i], n);
                let key = ngrams[i].clone();
                fragments.push(ngrams[i].clone());
                fragment_locations.push((key, occs));
                proof {
                    assert(fragments.deep_view() =~= prev_frags.push(full[i as int]));
                    assert(fragment_locations.deep_view() =~~= prev_locs.push(
                        (full[i as int], occurrences(full, n as nat, full[i as int])),
                    ));
                    assert(fragment_locations.deep_view().map_values(
                        |p: (Seq<char>, Seq<FragmentLocation>)| p.0,
                    ) =~= prev_keys.push(full[i as int]));
                }
            }
            i = i + 1;
        }
        proof {
            assert(full.take(full.len() as int) =~= full);
        }
        (fragments, fragment_locations)
    }

    /// Initializes the plagiarism sensitivity and similarity metric values
    /// and the actual metric type to be used in computing plagiarism
    /// scores, together with the set of fragment strings to ignore.
    pub fn new(n: usize, s: usize, metric: Metric, ignored_texts: Vec<String>) -> (db:
        PlagiarismDatabase)
        requires
            n >= 1,
        ensures
            db.wf(),
            db.config() == (EngineConfig {
                n: n as nat,
                cutoff: s as nat,
                metric,
                ignore: ignore_set_of(ignored_texts.deep_view(), n as nat),
            }),
            db.trusted_abs() == Seq::<EntryAbs>::empty(),
            db.untrusted_abs() == Seq::<EntryAbs>::empty(),
    {
        let db = PlagiarismDatabase {
            n,
            s,
            metric,
            trusted_texts: Vec::new(),
            untrusted_texts: Vec::new(),
            ignored_texts: PlagiarismDatabase::construct_ignored_texts(&ignored_texts, n),
        };
        proof {
            assert(db.trusted_abs() =~= Seq::<EntryAbs>::empty());
            assert(db.untrusted_abs() =~= Seq::<EntryAbs>::empty());
        }
        db
    }

    /// Creates the list of fragment strings to ignore: the n-grams of every
    /// normalized ignore text, collated together.
    fn construct_ignored_texts(texts: &Vec<String>, n: usize) -> (r: Vec<String>)
        requires
            n >= 1,
        ensures
            r.deep_view().to_set() == ignore_set_of(texts.deep_view(), n as nat),
    {
        let mut ignored_text_set: Vec<String> = Vec::new();
        let mut i: usize = 0;
        while i < texts.len()
            invariant
                i <= texts@.len(),
                n >= 1,
                ignored_text_set.deep_view().to_set() == ignore_set_of(
                    texts.deep_view().take(i as int),
                    n as nat,
                ),
            decreases texts@.len() - i,
        {
            let ghost prev = ignored_text_set.deep_view();
            let clean_text_words = clean_text(texts[i].as_str());
            let mut fragments = extract_clean_word_ngrams(&clean_text_words, n);
            let ghost frags = fragments.deep_view();
            ignored_text_set.append(&mut fragments);
            proof {
                assert(texts.deep_view().take(i + 1 as int).drop_last() =~= texts.deep_view().take(
                    i as int,
                ));
                assert(ignored_text_set.deep_view() =~= prev + frags);
                lemma_concat_to_set(prev, frags);
                assert(ignored_text_set.deep_view().to_set() =~= ignore_set_of(
                    texts.deep_view().take(i + 1 as int),
                    n as nat,
                ));
            }
            i = i + 1;
        }
        proof {
            assert(texts.deep_view().take(texts@.len() as int) =~= texts.deep_view());
        }
        ignored_text_set
    }

    /// Adds a text string as potential plagiarism source material.
    pub fn add_trusted_text(&mut self, owner_id: &str, text: &str)
        requires
            old(self).wf(),
        ensures
            final(self).wf(),
            final(self).config() == old(self).config(),
            final(self).untrusted_abs() == old(self).untrusted_abs(),
            final(self).trusted_abs() == upsert_abs(
                old(self).trusted_abs(),
                (EntryAbs { owner: owner_id@, words: tokens_of(text@) }),
            ),
    {
        let entry = self.build_entry(owner_id, text);
        let ghost entry_snap = entry;
        upsert_entry(&mut self.trusted_texts, entry);
        proof {
            self.lemma_after_upsert(
                *old(self),
                entry_snap,
                owner_id@,
                text@,
                old(self).trusted_texts@,
                self.trusted_texts@,
            );
        }
    }

    /// Adds a text string as a potential plagiarized string.
    pub fn add_untrusted_text(&mut self, owner_id: &str, text: &str)
        requires
            old(self).wf(),
        ensures
            final(self).wf(),
            final(self).config() == old(self).config(),
            final(self).trusted_abs() == old(self).trusted_abs(),
            final(self).untrusted_abs() == upsert_abs(
                old(self).untrusted_abs(),
                (EntryAbs { owner: owner_id@, words: tokens_of(text@) }),
            ),
    {
        let entry = self.build_entry(owner_id, text);
        let ghost entry_snap = entry;
        upsert_entry(&mut self.untrusted_texts, entry);
        proof {
            self.lemma_after_upsert(
                *old(self),
                entry_snap,
                owner_id@,
                text@,
                old(self).untrusted_texts@,
                self.untrusted_texts@,
            );
        }
    }

    /// Normalizes and indexes a raw text into a new entry, removing the
    /// ignored fragment strings from its matching set.
    fn build_entry(&self, owner_id: &str, text: &str) -> (entry: TextEntry)
        requires
            self.wf(),
        ensures
            entry_wf(entry, self.config().n, self.config().ignore),
            entry.owner@ == owner_id@,
            entry.clean_text_words.deep_view() == tokens_of(text@),
    {
        let clean_text_words = clean_text(text);
        let (fragments, fragment_locations) = Self::get_textfragments(&clean_text_words, self.n);
        // Remove strings that match the ignored list (equality test directly)
        let fragments = filter_ignored(&fragments, &self.ignored_texts);
        TextEntry { owner: owner_id.to_owned(), clean_text_words, fragments, fragment_locations }
    }

    /// Relates the partition after an upsert to the abstract upsert, and
    /// carries well-formedness across it.
    proof fn lemma_after_upsert(
        &self,
        pre: PlagiarismDatabase,
        entry: TextEntry,
        o: Seq<char>,
        text: Seq<char>,
        old_s: Seq<TextEntry>,
        new_s: Seq<TextEntry>,
    )
        requires
            entry_wf(entry, pre.config().n, pre.config().ignore),
            entry.owner@ == o,
            entry.clean_text_words.deep_view() == tokens_of(text),
            pre.n >= 1,
            owners_unique(Seq::new(old_s.len(), |i: int| entry_abs(old_s[i]))),
            forall|i: int|
                0 <= i < old_s.len() ==> entry_wf(
                    #[trigger] old_s[i],
                    pre.config().n,
                    pre.config().ignore,
                ),
            ({
                if exists|i: int| 0 <= i < old_s.len() && old_s[i].owner@ == entry.owner@ {
                    exists|i: int|
                        0 <= i < old_s.len() && old_s[i].owner@ == entry.owner@ && new_s
                            == old_s.update(i, entry)
                } else {
                    new_s == old_s.push(entry)
                }
            }),
        ensures
            Seq::new(new_s.len(), |i: int| entry_abs(new_s[i])) == upsert_abs(
                Seq::new(old_s.len(), |i: int| entry_abs(old_s[i])),
                (EntryAbs { owner: o, words: tokens_of(text) }),
            ),
            owners_unique(Seq::new(new_s.len(), |i: int| entry_abs(new_s[i]))),
            forall|i: int|
                0 <= i < new_s.len() ==> entry_wf(
                    #[trigger] new_s[i],
                    pre.config().n,
                    pre.config().ignore,
                ),
    {
        let old_abs = Seq::new(old_s.len(), |i: int| entry_abs(old_s[i]));
        let new_abs = Seq::new(new_s.len(), |i: int| entry_abs(new_s[i]));
        let e_abs = EntryAbs { owner: o, words: tokens_of(text) };
        if exists|i: int| 0 <= i < old_s.len() && old_s[i].owner@ == entry.owner@ {
            let i = choose|i: int|
                0 <= i < old_s.len() && old_s[i].owner@ == entry.owner@ && new_s == old_s.update(
                    i,
                    entry,
                );
            assert(old_abs[i].owner == o);
            assert(has_owner(old_abs, o));
            lemma_owner_index(old_abs, i);
            assert(new_abs =~= old_abs.update(i, e_abs));
            assert(upsert_abs(old_abs, e_abs) == old_abs.update(i, e_abs));
            assert forall|a: int, b: int| 0 <= a < b < new_abs.len() implies new_abs[a].owner
                != new_abs[b].owner by {
                assert(old_abs[a].owner != old_abs[b].owner);
                assert(new_abs[a].owner == old_abs[a].owner);
                assert(new_abs[b].owner == old_abs[b].owner);
            }
        } else {
            assert(new_s == old_s.push(entry));
            assert forall|k: int| 0 <= k < old_abs.len() implies old_abs[k].owner != o by {
                assert(old_s[k].owner@ != entry.owner@);
            }
            assert(!has_owner(old_abs, o));
            assert(new_abs =~= old_abs.push(e_abs));
            assert forall|a: int, b: int| 0 <= a < b < new_abs.len() implies new_abs[a].owner
                != new_abs[b].owner by {
                if b < old_abs.len() {
                    assert(old_abs[a].owner != old_abs[b].owner);
                } else {
                    assert(new_abs[b].owner == o);
                    assert(old_abs[a].owner != o);
                }
            }
        }
        assert forall|i: int| 0 <= i < new_s.len() implies entry_wf(
            #[trigger] new_s[i],
            pre.config().n,
            pre.config().ignore,
        ) by {
            if new_s[i] == entry {
            } else {
                if exists|j: int| 0 <= j < old_s.len() && old_s[j].owner@ == entry.owner@ {
                    let j = choose|j: int|
                        0 <= j < old_s.len() && old_s[j].owner@ == entry.owner@ && new_s
                            == old_s.update(j, entry);
                    assert(i != j);
                    assert(new_s[i] == old_s[i]);
                    assert(entry_wf(old_s[i], pre.config().n, pre.config().ignore));
                } else {
                    assert(new_s[i] == old_s[i]);
                    assert(entry_wf(old_s[i], pre.config().n, pre.config().ignore));
                }
            }
        }
    }

    /// Gets only the owner-to-cleaned-words mapping for all texts, the
    /// untrusted text winning when both partitions share an owner id.
    pub fn get_all_cleantext(&self) -> (r: Vec<(TextOwnerID, Vec<String>)>)
        requires
            self.wf(),
        ensures
            r.deep_view() == cleantext_merge(self.trusted_abs(), self.untrusted_abs()),
    {
        let ghost t = self.trusted_abs();
        let ghost u = self.untrusted_abs();
        let mut r: Vec<(TextOwnerID, Vec<String>)> = Vec::new();
        let mut i: usize = 0;
        while i < self.trusted_texts.len()
            invariant
                self.wf(),
                t == self.trusted_abs(),
                u == self.untrusted_abs(),
                i <= self.trusted_texts@.len(),
                r.deep_view() == keep_unshadowed(t.take(i as int), u),
            decreases self.trusted_texts@.len() - i,
        {
            let ghost prev = r.deep_view();
            proof {
                assert(t.take(i + 1 as int).drop_last() =~= t.take(i as int));
                assert(u =~= Seq::new(
                    self.untrusted_texts@.len(),
                    |j: int| entry_abs(self.untrusted_texts@[j]),
                ));
            }
            let entry = &self.trusted_texts[i];
            if !owner_in_partition(&self.untrusted_texts, &entry.owner) {
                r.push((entry.owner.clone(), clone_words(&entry.clean_text_words)));
                proof {
                    assert(r.deep_view() =~~= prev.push((t[i as int].owner, t[i as int].words)));
                }
            }
            i = i + 1;
        }
        proof {
            assert(t.take(t.len() as int) =~= t);
        }
        let mut j: usize = 0;
        while j < self.untrusted_texts.len()
            invariant
                self.wf(),
                t == self.trusted_abs(),
                u == self.untrusted_abs(),
                j <= self.untrusted_texts@.len(),
                r.deep_view() == keep_unshadowed(t, u) + u.take(j as int).map_values(
                    |e: EntryAbs| (e.owner, e.words),
                ),
            decreases self.untrusted_texts@.len() - j,
        {
            let ghost prev = r.deep_view();
            let entry = &self.untrusted_texts[j];
            r.push((entry.owner.clone(), clone_words(&entry.clean_text_words)));
            proof {
                assert(r.deep_view() =~~= prev.push((u[j as int].owner, u[j as int].words)));
                assert(u.take(j + 1 as int).map_values(|e: EntryAbs| (e.owner, e.words)) =~= u.take(
                    j as int,
                ).map_values(|e: EntryAbs| (e.owner, e.words)).push(
                    (u[j as int].owner, u[j as int].words),
                ));
            }
            j = j + 1;
        }
        proof {
            assert(u.take(u.len() as int) =~= u);
            assert(r.deep_view() == cleantext_merge(t, u));
        }
        r
    }

    /// Checks plagiarism by equality of fragments: every fragment the two
    /// texts share, paired with itself.
    fn check_plagiarism_equal(&self, source: &TextEntry, against: &TextEntry) -> (r: Vec<
        (String, String),
    >)
        ensures
            r.deep_view() == equal_matches(
                source.fragments.deep_view(),
                against.fragments.deep_view(),
            ),
    {
        let ghost src = source.fragments.deep_view();
        let mut r: Vec<(String, String)> = Vec::new();
        let mut i: usize = 0;
        while i < source.fragments.len()
            invariant
                i <= src.len(),
                src == source.fragments.deep_view(),
                r.deep_view() == equal_matches(src.take(i as int), against.fragments.deep_view()),
            decreases src.len() - i,
        {
            let ghost prev = r.deep_view();
            proof {
                assert(src.take(i + 1 as int).drop_last() =~= src.take(i as int));
            }
            if contains_string(&against.fragments, &source.fragments[i]) {
                let f = &source.fragments[i];
                r.push((f.clone(), f.clone()));
                assert(r.deep_view() =~= prev.push((src[i as int], src[i as int])));
            }
            i = i + 1;
        }
        proof {
            assert(src.take(src.len() as int) =~= src);
        }
        r
    }

    /// Checks plagiarism by a non-equality metric, testing every pair of
    /// fragments from the two texts against the cutoff.
    fn check_plagiarism_other(&self, source: &TextEntry, metric: Metric, against: &TextEntry) -> (r:
        Vec<(String, String)>)
        ensures
            r.deep_view() == cross_matches(
                source.fragments.deep_view(),
                against.fragments.deep_view(),
                metric,
                self.config().cutoff,
            ),
    {
        let ghost src = source.fragments.deep_view();
        let ghost agn = against.fragments.deep_view();
        let ghost cutoff = self.config().cutoff;
        let mut r: Vec<(String, String)> = Vec::new();
        let mut i: usize = 0;
        while i < source.fragments.len()
            invariant
                i <= src.len(),
                src == source.fragments.deep_view(),
                agn == against.fragments.deep_view(),
                cutoff == self.config().cutoff,
                r.deep_view() == cross_matches(src.take(i as int), agn, metric, cutoff),
            decreases src.len() - i,
        {
            proof {
                assert(src.take(i + 1 as int).drop_last() =~= src.take(i as int));
            }
            let mut j: usize = 0;
            while j < against.fragments.len()
                invariant
                    i < src.len(),
                    j <= agn.len(),
                    src == source.fragments.deep_view(),
                    agn == against.fragments.deep_view(),
                    cutoff == self.config().cutoff,
                    r.deep_view() == cross_matches(src.take(i as int), agn, metric, cutoff)
                        + row_matches(src[i as int], agn.take(j as int), metric, cutoff),
                decreases agn.len() - j,
            {
                let ghost prev = r.deep_view();
                proof {
                    assert(agn.take(j + 1 as int).drop_last() =~= agn.take(j as int));
                }
                if is_plagiarised(
                    source.fragments[i].as_str(),
                    against.fragments[j].as_str(),
                    metric,
                    self.s,
                ) {
                    let f1 = source.fragments[i].clone();
                    let f2 = against.fragments[j].clone();
                    r.push((f1, f2));
                    assert(r.deep_view() =~= prev.push((src[i as int], agn[j as int])));
                }
                j = j + 1;
            }
            proof {
                assert(agn.take(agn.len() as int) =~= agn);
            }
            i = i + 1;
        }
        proof {
            assert(src.take(src.len() as int) =~= src);
        }
        r
    }

    /// Takes a separated tuple of matching fragments and their owner ids
    /// and returns the locations where they can be found in their
    /// respective texts; both owners come from the untrusted partition.
    fn fragments_to_locations(
        &self,
        f1: &String,
        owner1: &String,
        f2: &String,
        owner2: &String,
    ) -> (r: (Vec<FragmentLocation>, Vec<FragmentLocation>))
        requires
            self.wf(),
            has_owner(self.untrusted_abs(), owner1@),
            has_owner(self.untrusted_abs(), owner2@),
            dedup(
                ngram_seq(abs_words_at(self.untrusted_abs(), owner1@), self.config().n),
            ).contains(f1@),
            dedup(
                ngram_seq(abs_words_at(self.untrusted_abs(), owner2@), self.config().n),
            ).contains(f2@),
        ensures
            r.0@ == occurrences(
                ngram_seq(abs_words_at(self.untrusted_abs(), owner1@), self.config().n),
                self.config().n,
                f1@,
            ),
            r.1@ == occurrences(
                ngram_seq(abs_words_at(self.untrusted_abs(), owner2@), self.config().n),
                self.config().n,
                f2@,
            ),
    {
        proof {
            self.lemma_partitions_wf();
        }
        let l1 = Self::locations_in_partition(&self.untrusted_texts, f1, owner1, self.n);
        let l2 = Self::locations_in_partition(&self.untrusted_texts, f2, owner2, self.n);
        (l1, l2)
    }

    /// As `fragments_to_locations`, but the first owner comes from the
    /// trusted partition.
    fn fragments_to_locations_trusted(
        &self,
        f1: &String,
        owner1: &String,
        f2: &String,
        owner2: &String,
    ) -> (r: (Vec<FragmentLocation>, Vec<FragmentLocation>))
        requires
            self.wf(),
            has_owner(self.trusted_abs(), owner1@),
            has_owner(self.untrusted_abs(), owner2@),
            dedup(
                ngram_seq(abs_words_at(self.trusted_abs(), owner1@), self.config().n),
            ).contains(f1@),
            dedup(
                ngram_seq(abs_words_at(self.untrusted_abs(), owner2@), self.config().n),
            ).contains(f2@),
        ensures
            r.0@ == occurrences(
                ngram_seq(abs_words_at(self.trusted_abs(), owner1@), self.config().n),
                self.config().n,
                f1@,
            ),
            r.1@ == occurrences(
                ngram_seq(abs_words_at(self.untrusted_abs(), owner2@), self.config().n),
                self.config().n,
                f2@,
            ),
    {
        proof {
            self.lemma_partitions_wf();
        }
        let l1 = Self::locations_in_partition(&self.trusted_texts, f1, owner1, self.n);
        let l2 = Self::locations_in_partition(&self.untrusted_texts, f2, owner2, self.n);
        (l1, l2)
    }

    /// The two partitions meet the preconditions of the location lookup.
    proof fn lemma_partitions_wf(&self)
        requires
            self.wf(),
        ensures
            Seq::new(self.trusted_texts@.len(), |i: int| entry_abs(self.trusted_texts@[i]))
                == self.trusted_abs(),
            Seq::new(self.untrusted_texts@.len(), |i: int| entry_abs(self.untrusted_texts@[i]))
                == self.untrusted_abs(),
            forall|i: int|
                0 <= i < self.trusted_texts@.len() ==> #[trigger] entry_wf_keys(
                    self.trusted_texts@[i],
                    self.n as nat,
                ),
            forall|i: int|
                0 <= i < self.untrusted_texts@.len() ==> #[trigger] entry_wf_keys(
                    self.untrusted_texts@[i],
                    self.n as nat,
                ),
    {
        assert forall|i: int| 0 <= i < self.trusted_texts@.len() implies #[trigger] entry_wf_keys(
            self.trusted_texts@[i],
            self.n as nat,
        ) by {
            assert(entry_wf(self.trusted_texts@[i], self.n as nat, self.config().ignore));
        }
        assert forall|i: int| 0 <= i < self.untrusted_texts@.len() implies #[trigger] entry_wf_keys(
            self.untrusted_texts@[i],
            self.n as nat,
        ) by {
            assert(entry_wf(self.untrusted_texts@[i], self.n as nat, self.config().ignore));
        }
    }

    /// Looks up a fragment's locations in the entry of the given owner
    /// within one partition.
    fn locations_in_partition(
        entries: &Vec<TextEntry>,
        f: &String,
        owner: &String,
        n: usize,
    ) -> (r: Vec<FragmentLocation>)
        requires
            ({
                let abs = Seq::new(entries@.len(), |i: int| entry_abs(entries@[i]));
                &&& owners_unique(abs)
                &&& forall|i: int|
                    0 <= i < entries@.len() ==> #[trigger] entry_wf_keys(entries@[i], n as nat)
                &&& has_owner(abs, owner@)
                &&& dedup(ngram_seq(abs_words_at(abs, owner@), n as nat)).contains(f@)
            }),
        ensures
            ({
                let abs = Seq::new(entries@.len(), |i: int| entry_abs(entries@[i]));
                r@ == occurrences(
                    ngram_seq(abs_words_at(abs, owner@), n as nat),
                    n as nat,
                    f@,
                )
            }),
    {
        let ghost abs = Seq::new(entries@.len(), |i: int| entry_abs(entries@[i]));
        proof {
            let k = choose|k: int| 0 <= k < abs.len() && abs[k].owner == owner@;
            assert(entries@[k].owner@ == owner@);
        }
        let entry = find_by_owner(entries, owner);
        proof {
            let i = choose|i: int| 0 <= i < entries@.len() && entries@[i] == *entry;
            assert(abs[i] == entry_abs(*entry));
            lemma_owner_index(abs, i);
            assert(abs_words_at(abs, owner@) == entry.clean_text_words.deep_view());
            assert(entry_wf_keys(entries@[i], n as nat));
            assert(entry.fragment_locations.deep_view().map_values(
                |p: (Seq<char>, Seq<FragmentLocation>)| p.0,
            ) == dedup(ngram_seq(entry.clean_text_words.deep_view(), n as nat)));
        }
        let r = lookup_locations(entry, f);
        proof {
            let ngrams = ngram_seq(entry.clean_text_words.deep_view(), n as nat);
            let j = choose|j: int|
                0 <= j < entry.fragment_locations@.len()
                    && entry.fragment_locations.deep_view()[j].0 == f@ && r@
                    == entry.fragment_locations.deep_view()[j].1;
            assert(r@ == occurrences(ngrams, n as nat, f@));
        }
        r
    }

    /// Helper function to actually run the plagiarism check between a
    /// source entry and an untrusted entry.
    fn run_metrics(&self, source: &TextEntry, against: &TextEntry, is_trusted_owner1: bool) -> (r:
        Option<PlagiarismResult>)
        requires
            self.wf(),
            is_trusted_owner1 ==> exists|i: int|
                0 <= i < self.trusted_texts@.len() && self.trusted_texts@[i] == *source,
            !is_trusted_owner1 ==> exists|i: int|
                0 <= i < self.untrusted_texts@.len() && self.untrusted_texts@[i] == *source,
            exists|i: int|
                0 <= i < self.untrusted_texts@.len() && self.untrusted_texts@[i] == *against,
        ensures
            ({
                let expected = pair_result_abs(
                    self.config(),
                    entry_abs(*source),
                    entry_abs(*against),
                    is_trusted_owner1,
                );
                match r {
                    Option::None => expected == Option::<ResultView>::None,
                    Option::Some(res) => expected == Option::Some(res@),
                }
            }),
    {
        let ghost cfg = self.config();
        let ghost src_abs = entry_abs(*source);
        let ghost agn_abs = entry_abs(*against);
        let ghost src_frags = entry_frag_seq(src_abs, cfg);
        let ghost agn_frags = entry_frag_seq(agn_abs, cfg);
        proof {
            if is_trusted_owner1 {
                let i = choose|i: int|
                    0 <= i < self.trusted_texts@.len() && self.trusted_texts@[i] == *source;
                assert(entry_wf(self.trusted_texts@[i], self.n as nat, cfg.ignore));
            } else {
                let i = choose|i: int|
                    0 <= i < self.untrusted_texts@.len() && self.untrusted_texts@[i] == *source;
                assert(entry_wf(self.untrusted_texts@[i], self.n as nat, cfg.ignore));
            }
            let i = choose|i: int|
                0 <= i < self.untrusted_texts@.len() && self.untrusted_texts@[i] == *against;
            assert(entry_wf(self.untrusted_texts@[i], self.n as nat, cfg.ignore));
            assert(source.fragments.deep_view() == src_frags);
            assert(against.fragments.deep_view() == agn_frags);
        }
        // Run metrics against both sources to get all matching strings
        let matching_fragments = match self.metric {
            Metric::Equal => self.check_plagiarism_equal(source, against),
            _ => self.check_plagiarism_other(source, self.metric, against),
        };
        let ghost ms = metric_matches(cfg, src_frags, agn_frags);
        assert(matching_fragments.deep_view() == ms);
        // No plagiarism between these two sources
        if matching_fragments.is_empty() {
            return Option::None;
        }
        proof {
            let src_ngrams = ngram_seq(src_abs.words, cfg.n);
            let agn_ngrams = ngram_seq(agn_abs.words, cfg.n);
            lemma_remove_ignored(dedup(src_ngrams), cfg.ignore);
            lemma_remove_ignored(dedup(agn_ngrams), cfg.ignore);
            match cfg.metric {
                Metric::Equal => lemma_equal_matches_membership(src_frags, agn_frags),
                Metric::Lev => lemma_cross_matches_membership(
                    src_frags,
                    agn_frags,
                    cfg.metric,
                    cfg.cutoff,
                ),
            }
        }
        let ghost expected_locs = ms.map_values(
            |p: (Seq<char>, Seq<char>)|
                (
                    occurrences(ngram_seq(src_abs.words, cfg.n), cfg.n, p.0),
                    occurrences(ngram_seq(agn_abs.words, cfg.n), cfg.n, p.1),
                ),
        );
        // Get the locations of each matching fragment from each source text
        let mut matching_fragments_locations: Vec<(Vec<FragmentLocation>, Vec<FragmentLocation>)> =
            Vec::new();
        let mut k: usize = 0;
        while k < matching_fragments.len()
            invariant
                k <= ms.len(),
                self.wf(),
                cfg == self.config(),
                src_abs == entry_abs(*source),
                agn_abs == entry_abs(*against),
                ms == matching_fragments.deep_view(),
                is_trusted_owner1 ==> exists|i: int|
                    0 <= i < self.trusted_texts@.len() && self.trusted_texts@[i] == *source,
                !is_trusted_owner1 ==> exists|i: int|
                    0 <= i < self.untrusted_texts@.len() && self.untrusted_texts@[i] == *source,
                exists|i: int|
                    0 <= i < self.untrusted_texts@.len() && self.untrusted_texts@[i] == *against,
                forall|k2: int|
                    0 <= k2 < ms.len() ==> dedup(ngram_seq(src_abs.words, cfg.n)).contains(
                        (#[trigger] ms[k2]).0,
                    ) && dedup(ngram_seq(agn_abs.words, cfg.n)).contains(ms[k2].1),
                expected_locs == ms.map_values(
                    |p: (Seq<char>, Seq<char>)|
                        (
                            occurrences(ngram_seq(src_abs.words, cfg.n), cfg.n, p.0),
                            occurrences(ngram_seq(agn_abs.words, cfg.n), cfg.n, p.1),
                        ),
                ),
                matching_fragments_locations.deep_view() == expected_locs.take(k as int),
            decreases ms.len() - k,
        {
            let ghost prev = matching_fragments_locations.deep_view();
            proof {
                if is_trusted_owner1 {
                    let i = choose|i: int|
                        0 <= i < self.trusted_texts@.len() && self.trusted_texts@[i] == *source;
                    assert(self.trusted_abs()[i] == src_abs);
                    lemma_owner_index(self.trusted_abs(), i);
                    assert(abs_words_at(self.trusted_abs(), source.owner@) == src_abs.words);
                } else {
                    let i = choose|i: int|
                        0 <= i < self.untrusted_texts@.len() && self.untrusted_texts@[i] == *source;
                    assert(self.untrusted_abs()[i] == src_abs);
                    lemma_owner_index(self.untrusted_abs(), i);
                    assert(abs_words_at(self.untrusted_abs(), source.owner@) == src_abs.words);
                }
                let i = choose|i: int|
                    0 <= i < self.untrusted_texts@.len() && self.untrusted_texts@[i] == *against;
                assert(self.untrusted_abs()[i] == agn_abs);
                lemma_owner_index(self.untrusted_abs(), i);
                assert(abs_words_at(self.untrusted_abs(), against.owner@) == agn_abs.words);
            }
            let f1 = &matching_fragments[k].0;
            let f2 = &matching_fragments[k].1;
            assert(f1@ == ms[k as int].0 && f2@ == ms[k as int].1);
            let locs = if is_trusted_owner1 {
                self.fragments_to_locations_trusted(f1, &source.owner, f2, &against.owner)
            } else {
                self.fragments_to_locations(f1, &source.owner, f2, &against.owner)
            };
            matching_fragments_locations.push(locs);
            proof {
                assert(matching_fragments_locations.deep_view() =~~= prev.push(
                    expected_locs[k as int],
                ));
                assert(expected_locs.take(k + 1 as int) =~= expected_locs.take(k as int).push(
                    expected_locs[k as int],
                ));
            }
            k = k + 1;
        }
        proof {
            assert(expected_locs.take(ms.len() as int) =~= expected_locs);
        }
        // Construct the result
        let result = PlagiarismResult {
            owner_id1: source.owner.clone(),
            owner_id2: against.owner.clone(),
            matching_fragments_locations,
            matching_fragments,
            trusted_owner1: is_trusted_owner1,
            equal_fragments: self.metric == Metric::Equal,
        };
        Option::Some(result)
    }

    /// Checks for plagiarism by comparing the metric against the cutoff
    /// for every unordered pair of distinct untrusted texts. Each pair is
    /// visited exactly once: a result never pairs an owner with itself,
    /// and no two results report the same unordered owner pair.
    pub fn check_untrusted_plagiarism(&self) -> (results: Vec<PlagiarismResult>)
        requires
            self.wf(),
        ensures
            results.deep_view() == untrusted_sweep(
                self.config(),
                self.untrusted_abs(),
                self.untrusted_abs().len() as int,
            ),
            forall|k: int|
                0 <= k < results@.len() ==> (#[trigger] results.deep_view()[k]).matching_fragments.len()
                    > 0,
            forall|k: int|
                0 <= k < results@.len() ==> (#[trigger] results.deep_view()[k]).owner_id1
                    != results.deep_view()[k].owner_id2,
            forall|k1: int, k2: int|
                0 <= k1 < k2 < results@.len() ==> !same_owner_pair(
                    results.deep_view()[k1],
                    results.deep_view()[k2],
                ),
    {
        let ghost cfg = self.config();
        let ghost u = self.untrusted_abs();
        let mut results: Vec<PlagiarismResult> = Vec::new();
        let ghost mut pairs: Seq<(int, int)> = Seq::empty();
        let ulen = self.untrusted_texts.len();
        let mut sourceidx: usize = 0;
        // The inner loop starts past the source index to avoid checking
        // the same combination twice
        while sourceidx < ulen
            invariant
                self.wf(),
                cfg == self.config(),
                u == self.untrusted_abs(),
                ulen == self.untrusted_texts@.len(),
                sourceidx <= ulen,
                results.deep_view() == untrusted_sweep(cfg, u, sourceidx as int),
                forall|k: int|
                    0 <= k < results@.len() ==> (#[trigger] results.deep_view()[k]).matching_fragments.len()
                        > 0,
                pairs.len() == results@.len(),
                forall|k: int|
                    0 <= k < pairs.len() ==> 0 <= (#[trigger] pairs[k]).0 < pairs[k].1 < ulen
                        && pairs[k].0 < sourceidx,
                forall|k: int|
                    0 <= k < pairs.len() ==> (#[trigger] results.deep_view()[k]).owner_id1
                        == u[pairs[k].0].owner && results.deep_view()[k].owner_id2
                        == u[pairs[k].1].owner,
                forall|k1: int, k2: int|
                    0 <= k1 < k2 < pairs.len() ==> lex_lt(pairs[k1], pairs[k2]),
            decreases ulen - sourceidx,
        {
            let mut againstidx: usize = sourceidx + 1;
            while againstidx < ulen
                invariant
                    self.wf(),
                    cfg == self.config(),
                    u == self.untrusted_abs(),
                    ulen == self.untrusted_texts@.len(),
                    sourceidx < ulen,
                    sourceidx + 1 <= againstidx <= ulen,
                    results.deep_view() == untrusted_sweep(cfg, u, sourceidx as int)
                        + untrusted_row(cfg, u, sourceidx as int, againstidx as int),
                    forall|k: int|
                        0 <= k < results@.len() ==> (#[trigger] results.deep_view()[k]).matching_fragments.len()
                            > 0,
                    pairs.len() == results@.len(),
                    forall|k: int|
                        0 <= k < pairs.len() ==> 0 <= (#[trigger] pairs[k]).0 < pairs[k].1 < ulen
                            && pairs[k].0 <= sourceidx,
                    forall|k: int|
                        0 <= k < pairs.len() ==> ((#[trigger] pairs[k]).0 == sourceidx ==> pairs[k].1
                            < againstidx),
                    forall|k: int|
                        0 <= k < pairs.len() ==> (#[trigger] results.deep_view()[k]).owner_id1
                            == u[pairs[k].0].owner && results.deep_view()[k].owner_id2
                            == u[pairs[k].1].owner,
                    forall|k1: int, k2: int|
                        0 <= k1 < k2 < pairs.len() ==> lex_lt(pairs[k1], pairs[k2]),
                decreases ulen - againstidx,
            {
                let ghost prev = results.deep_view();
                let source = &self.untrusted_texts[sourceidx];
                let against = &self.untrusted_texts[againstidx];
                proof {
                    assert(self.untrusted_texts@[sourceidx as int] == *source);
                    assert(self.untrusted_texts@[againstidx as int] == *against);
                    assert(entry_abs(*source) == u[sourceidx as int]);
                    assert(entry_abs(*against) == u[againstidx as int]);
                }
                if let Option::Some(result) = self.run_metrics(source, against, false) {
                    results.push(result);
                    proof {
                        pairs = pairs.push((sourceidx as int, againstidx as int));
                        assert(results.deep_view() =~= prev.push(result@));
                        assert(opt_result_seq(
                            pair_result_abs(
                                cfg,
                                u[sourceidx as int],
                                u[againstidx as int],
                                false,
                            ),
                        ) =~= seq![result@]);
                        assert(results.deep_view() =~= untrusted_sweep(cfg, u, sourceidx as int)
                            + untrusted_row(cfg, u, sourceidx as int, againstidx + 1 as int));
                    }
                } else {
                    proof {
                        assert(untrusted_row(cfg, u, sourceidx as int, againstidx + 1 as int)
                            =~= untrusted_row(cfg, u, sourceidx as int, againstidx as int));
                    }
                }
                againstidx = againstidx + 1;
            }
            sourceidx = sourceidx + 1;
        }
        proof {
            assert(results.deep_view() == untrusted_sweep(cfg, u, ulen as int));
            assert forall|k: int| 0 <= k < results@.len() implies (
            #[trigger] results.deep_view()[k]).owner_id1 != results.deep_view()[k].owner_id2 by {
                let a = pairs[k].0;
                let b = pairs[k].1;
                assert(u[a].owner != u[b].owner);
            }
            assert forall|k1: int, k2: int| 0 <= k1 < k2 < results@.len() implies !same_owner_pair(
                results.deep_view()[k1],
                results.deep_view()[k2],
            ) by {
                let a1 = pairs[k1].0;
                let b1 = pairs[k1].1;
                let a2 = pairs[k2].0;
                let b2 = pairs[k2].1;
                assert(lex_lt(pairs[k1], pairs[k2]));
                if same_owner_pair(results.deep_view()[k1], results.deep_view()[k2]) {
                    if results.deep_view()[k1].owner_id1 == results.deep_view()[k2].owner_id1 {
                        lemma_owner_inj(u, a1, a2);
                        lemma_owner_inj(u, b1, b2);
                    } else {
                        lemma_owner_inj(u, a1, b2);
                        lemma_owner_inj(u, b1, a2);
                    }
                }
            }
        }
        results
    }

    /// Checks for plagiarism by comparing the metric against the cutoff
    /// for every trusted text against every untrusted text.
    pub fn check_trusted_plagiarism(&self) -> (results: Vec<PlagiarismResult>)
        requires
            self.wf(),
        ensures
            results.deep_view() == trusted_sweep(
                self.config(),
                self.trusted_abs(),
                self.untrusted_abs(),
                self.trusted_abs().len() as int,
            ),
            forall|k: int|
                0 <= k < results@.len() ==> (#[trigger] results.deep_view()[k]).matching_fragments.len()
                    > 0,
    {
        let ghost cfg = self.config();
        let ghost t = self.trusted_abs();
        let ghost u = self.untrusted_abs();
        let mut results: Vec<PlagiarismResult> = Vec::new();
        let tlen = self.trusted_texts.len();
        let ulen = self.untrusted_texts.len();
        let mut sourceidx: usize = 0;
        while sourceidx < tlen
            invariant
                self.wf(),
                cfg == self.config(),
                t == self.trusted_abs(),
                u == self.untrusted_abs(),
                tlen == self.trusted_texts@.len(),
                ulen == self.untrusted_texts@.len(),
                sourceidx <= tlen,
                results.deep_view() == trusted_sweep(cfg, t, u, sourceidx as int),
                forall|k: int|
                    0 <= k < results@.len() ==> (#[trigger] results.deep_view()[k]).matching_fragments.len()
                        > 0,
            decreases tlen - sourceidx,
        {
            let mut againstidx: usize = 0;
            while againstidx < ulen
                invariant
                    self.wf(),
                    cfg == self.config(),
                    t == self.trusted_abs(),
                    u == self.untrusted_abs(),
                    tlen == self.trusted_texts@.len(),
                    ulen == self.untrusted_texts@.len(),
                    sourceidx < tlen,
                    againstidx <= ulen,
                    results.deep_view() == trusted_sweep(cfg, t, u, sourceidx as int)
                        + trusted_row(cfg, t[sourceidx as int], u, againstidx as int),
                    forall|k: int|
                        0 <= k < results@.len() ==> (#[trigger] results.deep_view()[k]).matching_fragments.len()
                            > 0,
                decreases ulen - againstidx,
            {
                let ghost prev = results.deep_view();
                let source = &self.trusted_texts[sourceidx];
                let against = &self.untrusted_texts[againstidx];
                proof {
                    assert(self.trusted_texts@[sourceidx as int] == *source);
                    assert(self.untrusted_texts@[againstidx as int] == *against);
                    assert(entry_abs(*source) == t[sourceidx as int]);
                    assert(entry_abs(*against) == u[againstidx as int]);
                }
                if let Option::Some(result) = self.run_metrics(source, against, true) {
                    results.push(result);
                    proof {
                        assert(results.deep_view() =~= prev.push(result@));
                        assert(opt_result_seq(
                            pair_result_abs(cfg, t[sourceidx as int], u[againstidx as int], true),
                        ) =~= seq![result@]);
                        assert(results.deep_view() =~= trusted_sweep(cfg, t, u, sourceidx as int)
                            + trusted_row(cfg, t[sourceidx as int], u, againstidx + 1 as int));
                    }
                } else {
                    proof {
                        assert(trusted_row(cfg, t[sourceidx as int], u, againstidx + 1 as int)
                            =~= trusted_row(cfg, t[sourceidx as int], u, againstidx as int));
                    }
                }
                againstidx = againstidx + 1;
            }
            sourceidx = sourceidx + 1;
        }
        results
    }
}

/// The fields of an entry's location map are keyed by the distinct
/// n-grams of its words, with each key's value holding its locations.
spec fn entry_wf_keys(e: TextEntry, n: nat) -> bool {
    let ngrams = ngram_seq(e.clean_text_words.deep_view(), n);
    &&& e.fragment_locations.deep_view().map_values(
        |p: (Seq<char>, Seq<FragmentLocation>)| p.0,
    ) == dedup(ngrams)
    &&& forall|j: int|
        0 <= j < e.fragment_locations@.len() ==> e.fragment_locations.deep_view()[j].1
            == occurrences(ngrams, n, e.fragment_locations.deep_view()[j].0)
}

/// The matching pairs of the equality metric: each fragment of `src` that
/// also occurs in `against`, paired with itself, in `src` order.
pub open spec fn equal_matches(src: Seq<Seq<char>>, against: Seq<Seq<char>>) -> Seq<
    (Seq<char>, Seq<char>),
>
    decreases src.len(),
{
    if src.len() == 0 {
        Seq::empty()
    } else {
        let d = equal_matches(src.drop_last(), against);
        if against.contains(src.last()) {
            d.push((src.last(), src.last()))
        } else {
            d
        }
    }
}

/// The matching pairs of one source fragment against the first `hi`
/// fragments of `against`, under the given metric.
pub open spec fn row_matches(
    f: Seq<char>,
    against: Seq<Seq<char>>,
    metric: Metric,
    cutoff: nat,
) -> Seq<(Seq<char>, Seq<char>)>
    decreases against.len(),
{
    if against.len() == 0 {
        Seq::empty()
    } else {
        let d = row_matches(f, against.drop_last(), metric, cutoff);
        if is_match(f, against.last(), metric, cutoff) {
            d.push((f, against.last()))
        } else {
            d
        }
    }
}

/// The matching pairs of the full cross product of the two fragment
/// sequences, row by row in `src` order.
pub open spec fn cross_matches(
    src: Seq<Seq<char>>,
    against: Seq<Seq<char>>,
    metric: Metric,
    cutoff: nat,
) -> Seq<(Seq<char>, Seq<char>)>
    decreases src.len(),
{
    if src.len() == 0 {
        Seq::empty()
    } else {
        cross_matches(src.drop_last(), against, metric, cutoff) + row_matches(
            src.last(),
            against,
            metric,
            cutoff,
        )
    }
}

/// The matching fragment pairs between two fragment sequences under the
/// configured metric: a set intersection for equality, a full cross
/// product of metric tests otherwise.
pub open spec fn metric_matches(
    cfg: EngineConfig,
    src: Seq<Seq<char>>,
    against: Seq<Seq<char>>,
) -> Seq<(Seq<char>, Seq<char>)> {
    match cfg.metric {
        Metric::Equal => equal_matches(src, against),
        Metric::Lev => cross_matches(src, against, cfg.metric, cfg.cutoff),
    }
}

/// Every matching pair is drawn from the two fragment sequences.
#[verifier::rlimit(30)]
pub proof fn lemma_equal_matches_membership(src: Seq<Seq<char>>, against: Seq<Seq<char>>)
    ensures
        forall|k: int|
            0 <= k < equal_matches(src, against).len() ==> src.contains(
                #[trigger] equal_matches(src, against)[k].0,
            ) && against.contains(equal_matches(src, against)[k].1) && equal_matches(src, against)[k].0
                == equal_matches(src, against)[k].1,
    decreases src.len(),
{
    if src.len() > 0 {
        lemma_equal_matches_membership(src.drop_last(), against);
        let d = equal_matches(src.drop_last(), against);
        assert forall|k: int| 0 <= k < equal_matches(src, against).len() implies src.contains(
            #[trigger] equal_matches(src, against)[k].0,
        ) && against.contains(equal_matches(src, against)[k].1) && equal_matches(src, against)[k].0
            == equal_matches(src, against)[k].1 by {
            if k < d.len() {
                assert(equal_matches(src, against)[k] == d[k]);
                assert(src.drop_last().contains(d[k].0));
                assert(against.contains(d[k].1));
                let i = choose|i: int|
                    0 <= i < src.drop_last().len() && src.drop_last()[i] == d[k].0;
                assert(src[i] == d[k].0);
                assert(src.contains(d[k].0));
            } else {
                assert(equal_matches(src, against)[k] == (src.last(), src.last()));
                assert(against.contains(src.last()));
                assert(src[src.len() - 1] == src.last());
                assert(src.contains(src.last()));
            }
        }
    }
}

/// When every source fragment also occurs in `against`, the equality
/// metric matches all of them: each fragment paired with itself, in
/// order.
pub proof fn lemma_equal_matches_complete(src: Seq<Seq<char>>, against: Seq<Seq<char>>)
    requires
        forall|i: int| 0 <= i < src.len() ==> against.contains(#[trigger] src[i]),
    ensures
        equal_matches(src, against) == src.map_values(|f: Seq<char>| (f, f)),
    decreases src.len(),
{
    if src.len() == 0 {
        assert(equal_matches(src, against) =~= src.map_values(|f: Seq<char>| (f, f)));
    } else {
        assert forall|i: int| 0 <= i < src.drop_last().len() implies against.contains(
            #[trigger] src.drop_last()[i],
        ) by {
            assert(src[i] == src.drop_last()[i]);
        }
        lemma_equal_matches_complete(src.drop_last(), against);
        assert(src[src.len() - 1] == src.last());
        assert(against.contains(src.last()));
        assert(equal_matches(src, against) =~= src.map_values(|f: Seq<char>| (f, f)));
    }
}

/// The equality metric is total on a text matched against itself: the
/// set-intersection sweep of a fragment sequence with itself yields its
/// entire fragment sequence, each fragment paired with itself.
pub proof fn lemma_equal_self_match(fs: Seq<Seq<char>>)
    ensures
        equal_matches(fs, fs) == fs.map_values(|f: Seq<char>| (f, f)),
{
    lemma_equal_matches_complete(fs, fs);
}

/// A fragment in the ignore set never appears in the matching fragments
/// of an emitted result: matching only consults the fragment sequences
/// that survive ignore filtering.
pub proof fn lemma_ignored_never_matched(
    cfg: EngineConfig,
    src: EntryAbs,
    against: EntryAbs,
    trusted_owner1: bool,
)
    ensures
        ({
            match pair_result_abs(cfg, src, against, trusted_owner1) {
                Option::None => true,
                Option::Some(rv) => forall|k: int|
                    0 <= k < rv.matching_fragments.len() ==> !cfg.ignore.contains(
                        (#[trigger] rv.matching_fragments[k]).0,
                    ) && !cfg.ignore.contains(rv.matching_fragments[k].1),
            }
        }),
{
    let src_frags = entry_frag_seq(src, cfg);
    let agn_frags = entry_frag_seq(against, cfg);
    lemma_remove_ignored(dedup(ngram_seq(src.words, cfg.n)), cfg.ignore);
    lemma_remove_ignored(dedup(ngram_seq(against.words, cfg.n)), cfg.ignore);
    match cfg.metric {
        Metric::Equal => lemma_equal_matches_membership(src_frags, agn_frags),
        Metric::Lev => lemma_cross_matches_membership(src_frags, agn_frags, cfg.metric, cfg.cutoff),
    }
}

/// Every matching pair of a row is the source fragment paired with a
/// member of `against`.
pub proof fn lemma_row_matches_membership(
    f: Seq<char>,
    against: Seq<Seq<char>>,
    metric: Metric,
    cutoff: nat,
)
    ensures
        forall|k: int|
            0 <= k < row_matches(f, against, metric, cutoff).len() ==> (#[trigger] row_matches(
                f,
                against,
                metric,
                cutoff,
            )[k]).0 == f && against.contains(row_matches(f, against, metric, cutoff)[k].1),
    decreases against.len(),
{
    if against.len() > 0 {
        lemma_row_matches_membership(f, against.drop_last(), metric, cutoff);
        let d = row_matches(f, against.drop_last(), metric, cutoff);
        assert forall|k: int| 0 <= k < row_matches(f, against, metric, cutoff).len() implies (
        #[trigger] row_matches(f, against, metric, cutoff)[k]).0 == f && against.contains(
            row_matches(f, against, metric, cutoff)[k].1,
        ) by {
            if k < d.len() {
                assert(row_matches(f, against, metric, cutoff)[k] == d[k]);
                let i = choose|i: int|
                    0 <= i < against.drop_last().len() && against.drop_last()[i] == d[k].1;
                assert(against[i] == d[k].1);
            } else {
                assert(against[against.len() - 1] == against.last());
            }
        }
    }
}

/// Every matching pair of the cross product is drawn from the two
/// fragment sequences.
pub proof fn lemma_cross_matches_membership(
    src: Seq<Seq<char>>,
    against: Seq<Seq<char>>,
    metric: Metric,
    cutoff: nat,
)
    ensures
        forall|k: int|
            0 <= k < cross_matches(src, against, metric, cutoff).len() ==> src.contains(
                (#[trigger] cross_matches(src, against, metric, cutoff)[k]).0,
            ) && against.contains(cross_matches(src, against, metric, cutoff)[k].1),
    decreases src.len(),
{
    if src.len() > 0 {
        lemma_cross_matches_membership(src.drop_last(), against, metric, cutoff);
        lemma_row_matches_membership(src.last(), against, metric, cutoff);
        let d = cross_matches(src.drop_last(), against, metric, cutoff);
        let row = row_matches(src.last(), against, metric, cutoff);
        assert forall|k: int| 0 <= k < cross_matches(src, against, metric, cutoff).len() implies
            src.contains((#[trigger] cross_matches(src, against, metric, cutoff)[k]).0)
            && against.contains(cross_matches(src, against, metric, cutoff)[k].1) by {
            if k < d.len() {
                assert(cross_matches(src, against, metric, cutoff)[k] == d[k]);
                let i = choose|i: int|
                    0 <= i < src.drop_last().len() && src.drop_last()[i] == d[k].0;
                assert(src[i] == d[k].0);
            } else {
                assert(cross_matches(src, against, metric, cutoff)[k] == row[k - d.len()]);
                assert(src[src.len() - 1] == src.last());
            }
        }
    }
}

/// The fragment strings of an entry that take part in matching.
pub open spec fn entry_frag_seq(e: EntryAbs, cfg: EngineConfig) -> Seq<Seq<char>> {
    frag_seq_of(e.words, cfg.n, cfg.ignore)
}

/// The outcome of comparing one source entry against one untrusted entry:
/// the matching fragment pairs with their locations in both texts, or
/// nothing when no fragment matches.
pub open spec fn pair_result_abs(
    cfg: EngineConfig,
    src: EntryAbs,
    against: EntryAbs,
    trusted_owner1: bool,
) -> Option<ResultView> {
    let ms = metric_matches(cfg, entry_frag_seq(src, cfg), entry_frag_seq(against, cfg));
    if ms.len() == 0 {
        Option::None
    } else {
        Option::Some(
            ResultView {
                owner_id1: src.owner,
                owner_id2: against.owner,
                matching_fragments: ms,
                matching_fragments_locations: ms.map_values(
                    |p: (Seq<char>, Seq<char>)|
                        (
                            occurrences(ngram_seq(src.words, cfg.n), cfg.n, p.0),
                            occurrences(ngram_seq(against.words, cfg.n), cfg.n, p.1),
                        ),
                ),
                trusted_owner1: trusted_owner1,
                equal_fragments: cfg.metric == Metric::Equal,
            },
        )
    }
}

/// A result option as a sequence: empty for no result, a singleton
/// otherwise.
pub open spec fn opt_result_seq(o: Option<ResultView>) -> Seq<ResultView> {
    match o {
        Option::None => Seq::empty(),
        Option::Some(rv) => seq![rv],
    }
}

/// The results of comparing untrusted entry `i` against untrusted entries
/// `i + 1 .. hi`, in order.
pub open spec fn untrusted_row(cfg: EngineConfig, u: Seq<EntryAbs>, i: int, hi: int) -> Seq<
    ResultView,
>
    decreases hi - i,
{
    if hi <= i + 1 {
        Seq::empty()
    } else {
        untrusted_row(cfg, u, i, hi - 1) + opt_result_seq(
            pair_result_abs(cfg, u[i], u[hi - 1], false),
        )
    }
}

/// The results of the untrusted-against-untrusted sweep over source rows
/// `0 .. hi`: each unordered pair of distinct entries visited exactly
/// once, by an index-ordered double loop that only looks forward.
pub open spec fn untrusted_sweep(cfg: EngineConfig, u: Seq<EntryAbs>, hi: int) -> Seq<ResultView>
    decreases hi,
{
    if hi <= 0 {
        Seq::empty()
    } else {
        untrusted_sweep(cfg, u, hi - 1) + untrusted_row(cfg, u, hi - 1, u.len() as int)
    }
}

/// The results of comparing one trusted entry against untrusted entries
/// `0 .. hi`, in order.
pub open spec fn trusted_row(cfg: EngineConfig, t: EntryAbs, u: Seq<EntryAbs>, hi: int) -> Seq<
    ResultView,
>
    decreases hi,
{
    if hi <= 0 {
        Seq::empty()
    } else {
        trusted_row(cfg, t, u, hi - 1) + opt_result_seq(pair_result_abs(cfg, t, u[hi - 1], true))
    }
}

/// The results of the trusted-against-untrusted sweep over trusted rows
/// `0 .. hi`: the full cross product of the two partitions.
pub open spec fn trusted_sweep(
    cfg: EngineConfig,
    t: Seq<EntryAbs>,
    u: Seq<EntryAbs>,
    hi: int,
) -> Seq<ResultView>
    decreases hi,
{
    if hi <= 0 {
        Seq::empty()
    } else {
        trusted_sweep(cfg, t, u, hi - 1) + trusted_row(cfg, t[hi - 1], u, u.len() as int)
    }
}

/// Whether two results report the same unordered pair of owners.
pub open spec fn same_owner_pair(a: ResultView, b: ResultView) -> bool {
    (a.owner_id1 == b.owner_id1 && a.owner_id2 == b.owner_id2) || (a.owner_id1 == b.owner_id2
        && a.owner_id2 == b.owner_id1)
}

/// Strict lexicographic order on index pairs.
pub open spec fn lex_lt(p1: (int, int), p2: (int, int)) -> bool {
    p1.0 < p2.0 || (p1.0 == p2.0 && p1.1 < p2.1)
}

/// With unique owners, an owner id determines its entry's index.
pub proof fn lemma_owner_inj(s: Seq<EntryAbs>, a: int, b: int)
    requires
        owners_unique(s),
        0 <= a < s.len(),
        0 <= b < s.len(),
        s[a].owner == s[b].owner,
    ensures
        a == b,
{
    if a < b {
        assert(s[a].owner != s[b].owner);
    } else if b < a {
        assert(s[b].owner != s[a].owner);
    }
}

/// In a partition with unique owners, an entry's index is the index that
/// its owner id selects.
pub proof fn lemma_owner_index(s: Seq<EntryAbs>, i: int)
    requires
        owners_unique(s),
        0 <= i < s.len(),
    ensures
        has_owner(s, s[i].owner),
        owner_index(s, s[i].owner) == i,
{
    assert(has_owner(s, s[i].owner));
    let j = owner_index(s, s[i].owner);
    if j != i {
        if j < i {
            assert(s[j].owner != s[i].owner);
        } else {
            assert(s[i].owner != s[j].owner);
        }
    }
}

/// The words of the entry that an owner id selects.
pub open spec fn abs_words_at(s: Seq<EntryAbs>, o: Seq<char>) -> Seq<Seq<char>> {
    s[owner_index(s, o)].words
}

/// Finds the entry of the given owner.
fn find_by_owner<'a>(entries: &'a Vec<TextEntry>, owner: &String) -> (r: &'a TextEntry)
    requires
        exists|i: int| 0 <= i < entries@.len() && entries@[i].owner@ == owner@,
    ensures
        exists|i: int| 0 <= i < entries@.len() && entries@[i] == *r,
        r.owner@ == owner@,
{
    let mut i: usize = 0;
    while i < entries.len()
        invariant
            i <= entries@.len(),
            exists|k: int| 0 <= k < entries@.len() && entries@[k].owner@ == owner@,
            forall|k: int| 0 <= k < i ==> entries@[k].owner@ != owner@,
        decreases entries@.len() - i,
    {
        if entries[i].owner.eq(owner) {
            return &entries[i];
        }
        i = i + 1;
    }
    proof {
        let k = choose|k: int| 0 <= k < entries@.len() && entries@[k].owner@ == owner@;
        assert(false);
    }
    vstd::pervasive::unreached()
}

/// Returns a copy of the location list of the given fragment string.
fn lookup_locations(entry: &TextEntry, f: &String) -> (r: Vec<FragmentLocation>)
    requires
        entry.fragment_locations.deep_view().map_values(
            |p: (Seq<char>, Seq<FragmentLocation>)| p.0,
        ).contains(f@),
    ensures
        exists|j: int|
            0 <= j < entry.fragment_locations@.len() && entry.fragment_locations.deep_view()[j].0
                == f@ && r@ == entry.fragment_locations.deep_view()[j].1,
{
    let ghost deep = entry.fragment_locations.deep_view();
    let mut j: usize = 0;
    while j < entry.fragment_locations.len()
        invariant
            j <= deep.len(),
            deep == entry.fragment_locations.deep_view(),
            deep.map_values(|p: (Seq<char>, Seq<FragmentLocation>)| p.0).contains(f@),
            forall|k: int| 0 <= k < j ==> deep[k].0 != f@,
        decreases deep.len() - j,
    {
        if entry.fragment_locations[j].0.eq(f) {
            let r = copy_locations(&entry.fragment_locations[j].1);
            proof {
                assert(entry.fragment_locations@[j as int].1.deep_view() =~= entry.fragment_locations@[
                    j as int
                ].1@);
                assert(deep[j as int].1 == entry.fragment_locations@[j as int].1.deep_view());
            }
            return r;
        }
        j = j + 1;
    }
    proof {
        let keys = deep.map_values(|p: (Seq<char>, Seq<FragmentLocation>)| p.0);
        let k = choose|k: int| 0 <= k < keys.len() && keys[k] == f@;
        assert(deep[k].0 == f@);
        assert(false);
    }
    vstd::pervasive::unreached()
}

/// Copies a location list.
fn copy_locations(v: &Vec<FragmentLocation>) -> (r: Vec<FragmentLocation>)
    ensures
        r@ == v@,
{
    let mut r: Vec<FragmentLocation> = Vec::new();
    let mut i: usize = 0;
    while i < v.len()
        invariant
            i <= v@.len(),
            r@ == v@.take(i as int),
        decreases v@.len() - i,
    {
        r.push(v[i]);
        proof {
            assert(v@.take(i + 1 as int) =~= v@.take(i as int).push(v@[i as int]));
        }
        i = i + 1;
    }
    proof {
        assert(v@.take(v@.len() as int) =~= v@);
    }
    r
}

/// The trusted and untrusted cleaned texts merged into one owner-keyed
/// list: every untrusted entry, plus the trusted entries whose owner id
/// does not also appear in the untrusted partition (on a shared owner id
/// the untrusted text wins).
pub open spec fn cleantext_merge(t: Seq<EntryAbs>, u: Seq<EntryAbs>) -> Seq<
    (Seq<char>, Seq<Seq<char>>),
> {
    keep_unshadowed(t, u) + u.map_values(|e: EntryAbs| (e.owner, e.words))
}

/// The trusted entries whose owner id has no untrusted entry, in order.
pub open spec fn keep_unshadowed(t: Seq<EntryAbs>, u: Seq<EntryAbs>) -> Seq<
    (Seq<char>, Seq<Seq<char>>),
>
    decreases t.len(),
{
    if t.len() == 0 {
        Seq::empty()
    } else {
        let d = keep_unshadowed(t.drop_last(), u);
        if has_owner(u, t.last().owner) {
            d
        } else {
            d.push((t.last().owner, t.last().words))
        }
    }
}

/// The partition state after ingesting a list of (owner, raw text) pairs
/// in order, each one normalized and upserted by owner.
pub open spec fn ingest(entries: Seq<EntryAbs>, contents: Seq<(Seq<char>, Seq<char>)>) -> Seq<
    EntryAbs,
>
    decreases contents.len(),
{
    if contents.len() == 0 {
        entries
    } else {
        upsert_abs(
            ingest(entries, contents.drop_last()),
            EntryAbs { owner: contents.last().0, words: tokens_of(contents.last().1) },
        )
    }
}

/// Checks whether some entry of the partition has the given owner.
fn owner_in_partition(entries: &Vec<TextEntry>, owner: &String) -> (r: bool)
    ensures
        r == has_owner(Seq::new(entries@.len(), |i: int| entry_abs(entries@[i])), owner@),
{
    let ghost abs = Seq::new(entries@.len(), |i: int| entry_abs(entries@[i]));
    let mut i: usize = 0;
    while i < entries.len()
        invariant
            i <= entries@.len(),
            abs == Seq::new(entries@.len(), |j: int| entry_abs(entries@[j])),
            forall|k: int| 0 <= k < i ==> abs[k].owner != owner@,
        decreases entries@.len() - i,
    {
        if entries[i].owner.eq(owner) {
            assert(abs[i as int].owner == owner@);
            return true;
        }
        i = i + 1;
    }
    false
}

/// Replaces the entry with the same owner, or appends the new entry.
fn upsert_entry(entries: &mut Vec<TextEntry>, entry: TextEntry)
    ensures
        ({
            let old_s = old(entries)@;
            let new_s = final(entries)@;
            if exists|i: int| 0 <= i < old_s.len() && old_s[i].owner@ == entry.owner@ {
                exists|i: int|
                    0 <= i < old_s.len() && old_s[i].owner@ == entry.owner@ && new_s == old_s.update(
                        i,
                        entry,
                    )
            } else {
                new_s == old_s.push(entry)
            }
        }),
{
    let mut i: usize = 0;
    while i < entries.len()
        invariant
            i <= entries@.len(),
            entries@ == old(entries)@,
            forall|k: int| 0 <= k < i ==> entries@[k].owner@ != entry.owner@,
        decreases entries@.len() - i,
    {
        if entries[i].owner.eq(&entry.owner) {
            let ghost idx = i as int;
            entries[i] = entry;
            assert(entries@ == old(entries)@.update(idx, entries@[idx]));
            return ;
        }
        i = i + 1;
    }
    entries.push(entry);
}

/// Copies a list of words.
fn clone_words(v: &Vec<String>) -> (r: Vec<String>)
    ensures
        r@ == v@,
{
    let r = v.clone();
    proof {
        assert(r@ =~= v@);
    }
    r
}

/// Sorts plagiarism results by decreasing number of matching fragments,
/// so that the most significant overlaps are reported first. The output
/// holds exactly the given results, reordered.
pub fn sort_results_by_matches(results: &mut Vec<PlagiarismResult>)
    ensures
        final(results)@.to_multiset() == old(results)@.to_multiset(),
        forall|k1: int, k2: int|
            0 <= k1 <= k2 < final(results)@.len() ==> (#[trigger] final(results)@[k1])@.matching_fragments.len()
                >= (#[trigger] final(results)@[k2])@.matching_fragments.len(),
{
    broadcast use vstd::seq_lib::group_to_multiset_ensures;
    broadcast use vstd::multiset::group_multiset_axioms;

    let mut i: usize = 1;
    while i < results.len()
        invariant
            1 <= i,
            i <= results@.len() || results@.len() < 1,
            results@.to_multiset() == old(results)@.to_multiset(),
            forall|k1: int, k2: int|
                0 <= k1 <= k2 < i && k2 < results@.len() ==> (#[trigger] results@[k1])@.matching_fragments.len()
                    >= (#[trigger] results@[k2])@.matching_fragments.len(),
        decreases results@.len() - i,
    {
        let key_len = results[i].matching_fragments.len();
        let mut p: usize = 0;
        while p < i && results[p].matching_fragments.len() >= key_len
            invariant
                i < results@.len(),
                p <= i,
                key_len == results@[i as int]@.matching_fragments.len(),
                forall|k: int|
                    0 <= k < p ==> (#[trigger] results@[k])@.matching_fragments.len() >= key_len,
            decreases i - p,
        {
            p = p + 1;
        }
        let ghost before = results@;
        let x = results.remove(i);
        results.insert(p, x);
        proof {
            broadcast use vstd::seq_lib::group_to_multiset_ensures;
            broadcast use vstd::multiset::group_multiset_axioms;

            let after = results@;
            assert(after == before.remove(i as int).insert(p as int, x));
            assert(before.remove(i as int).to_multiset() =~= before.to_multiset().remove(x));
            assert(after.to_multiset() =~= before.remove(i as int).to_multiset().insert(x));
            assert(before.contains(x));
            assert(before.to_multiset().count(x) > 0);
            assert(before.to_multiset().remove(x).insert(x) =~= before.to_multiset());
            assert(after.to_multiset() =~= before.to_multiset());
            assert forall|k1: int, k2: int|
                0 <= k1 <= k2 <= i && k2 < after.len() implies (
            #[trigger] after[k1])@.matching_fragments.len() >= (
            #[trigger] after[k2])@.matching_fragments.len() by {
                let key = x@.matching_fragments.len();
                if p < i {
                    assert(before[p as int]@.matching_fragments.len() < key);
                }
                assert forall|m: int| p <= m < i implies (
                #[trigger] before[m])@.matching_fragments.len() < key by {
                    assert(before[p as int]@.matching_fragments.len() >= before[m]@.matching_fragments.len());
                }
                if k1 < p {
                    assert(after[k1] == before[k1]);
                } else if k1 == p {
                    assert(after[k1] == x);
                } else {
                    assert(after[k1] == before[k1 - 1]);
                }
                if k2 < p {
                    assert(after[k2] == before[k2]);
                } else if k2 == p {
                    assert(after[k2] == x);
                } else {
                    assert(after[k2] == before[k2 - 1]);
                }
            }
        }
        i = i + 1;
    }
}

/// The set of members of a concatenation is the union of the sets of
/// members of the parts.
proof fn lemma_concat_to_set(a: Seq<Seq<char>>, b: Seq<Seq<char>>)
    ensures
        (a + b).to_set() == a.to_set().union(b.to_set()),
{
    assert forall|x: Seq<char>| (a + b).to_set().contains(x) implies a.to_set().union(
        b.to_set(),
    ).contains(x) by {
        let i = choose|i: int| 0 <= i < (a + b).len() && (a + b)[i] == x;
        if i < a.len() {
            assert(a[i] == x);
        } else {
            assert(b[i - a.len()] == x);
        }
    }
    assert forall|x: Seq<char>| a.to_set().union(b.to_set()).contains(x) implies (a
        + b).to_set().contains(x) by {
        if a.contains(x) {
            let i = choose|i: int| 0 <= i < a.len() && a[i] == x;
            assert((a + b)[i] == x);
        } else {
            let i = choose|i: int| 0 <= i < b.len() && b[i] == x;
            assert((a + b)[a.len() + i] == x);
        }
    }
    assert((a + b).to_set() =~= a.to_set().union(b.to_set()));
}

} // verus!
