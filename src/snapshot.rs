use vstd::prelude::*;

verus! {

/// One captured file: its path relative to the binding directory and its
/// normalised content.
#[derive(Clone, Debug)]
pub struct SnapshotFile {
    pub path: String,
    pub contents: String,
}

/// (path, content) pairs of a list of files.
pub open spec fn entries(v: Seq<SnapshotFile>) -> Seq<(Seq<char>, Seq<char>)> {
    v.map_values(|f: SnapshotFile| (f.path@, f.contents@))
}

/// The paths of a list of entries, in order.
pub open spec fn paths_of(es: Seq<(Seq<char>, Seq<char>)>) -> Seq<Seq<char>> {
    es.map_values(|e: (Seq<char>, Seq<char>)| e.0)
}

/// The content recorded under `k`; a later entry overrides an earlier one.
pub open spec fn lookup(es: Seq<(Seq<char>, Seq<char>)>, k: Seq<char>) -> Option<Seq<char>>
    decreases es.len(),
{
    if es.len() == 0 {
        None
    } else if es.last().0 == k {
        Some(es.last().1)
    } else {
        lookup(es.drop_last(), k)
    }
}

/// The baselines that a list of entries records, by path.
pub open spec fn map_of(es: Seq<(Seq<char>, Seq<char>)>) -> Map<Seq<char>, Seq<char>> {
    Map::new(|k: Seq<char>| lookup(es, k) is Some, |k: Seq<char>| lookup(es, k)->0)
}

/// What a store holds: the recorded list of paths, if any, and a baseline
/// content per path.
pub struct StoreModel {
    pub manifest: Option<Seq<Seq<char>>>,
    pub baselines: Map<Seq<char>, Seq<char>>,
}

/// A reported difference between a capture and the baseline store.
pub enum DiffModel {
    Manifest { baseline: Seq<Seq<char>>, current: Seq<Seq<char>> },
    Content { path: Seq<char>, baseline: Seq<char>, current: Seq<char> },
}

/// A difference between what was generated and what the store holds.
#[derive(Clone, Debug)]
pub enum Difference {
    /// The set of captured files is not the recorded one.
    Manifest { baseline: Vec<String>, current: Vec<String> },
    /// The normalised content of one file is not its baseline.
    Content { path: String, baseline: String, current: String },
}

pub open spec fn strings(v: Seq<String>) -> Seq<Seq<char>> {
    v.map_values(|s: String| s@)
}

impl View for Difference {
    type V = DiffModel;

    open spec fn view(&self) -> DiffModel {
        match self {
            Difference::Manifest { baseline, current } => DiffModel::Manifest {
                baseline: strings(baseline@),
                current: strings(current@),
            },
            Difference::Content { path, baseline, current } => DiffModel::Content {
                path: path@,
                baseline: baseline@,
                current: current@,
            },
        }
    }
}

pub open spec fn diff_views(v: Seq<Difference>) -> Seq<DiffModel> {
    v.map_values(|d: Difference| d@)
}

/// The manifest difference, if the store has a manifest that is not `current`.
pub open spec fn manifest_diffs(m: Option<Seq<Seq<char>>>, current: Seq<Seq<char>>) -> Seq<DiffModel> {
    match m {
        Some(b) => if b == current {
            Seq::empty()
        } else {
            seq![DiffModel::Manifest { baseline: b, current }]
        },
        None => Seq::empty(),
    }
}

/// One content difference for each captured file, in capture order, that
/// has a baseline different from its content.
pub open spec fn content_diffs(
    baselines: Map<Seq<char>, Seq<char>>,
    files: Seq<(Seq<char>, Seq<char>)>,
) -> Seq<DiffModel>
    decreases files.len(),
{
    if files.len() == 0 {
        Seq::empty()
    } else {
        let f = files.last();
        content_diffs(baselines, files.drop_last()) + if baselines.contains_key(f.0)
            && baselines[f.0] != f.1 {
            seq![DiffModel::Content { path: f.0, baseline: baselines[f.0], current: f.1 }]
        } else {
            Seq::empty()
        }
    }
}

/// Every difference of a capture against a store: the manifest first, then
/// the files.
pub open spec fn differences(s: StoreModel, files: Seq<(Seq<char>, Seq<char>)>) -> Seq<DiffModel> {
    manifest_diffs(s.manifest, paths_of(files)) + content_diffs(s.baselines, files)
}

/// The store after a normal run: what had no baseline is recorded as one;
/// nothing that had one is changed.
pub open spec fn recorded(s: StoreModel, files: Seq<(Seq<char>, Seq<char>)>) -> StoreModel {
    StoreModel {
        manifest: match s.manifest {
            Some(m) => Some(m),
            None => Some(paths_of(files)),
        },
        baselines: Map::new(
            |k: Seq<char>| s.baselines.contains_key(k) || lookup(files, k) is Some,
            |k: Seq<char>| if s.baselines.contains_key(k) {
                s.baselines[k]
            } else {
                lookup(files, k)->0
            },
        ),
    }
}

/// The store after an explicit accept: exactly the capture.
pub open spec fn accepted(files: Seq<(Seq<char>, Seq<char>)>) -> StoreModel {
    StoreModel { manifest: Some(paths_of(files)), baselines: map_of(files) }
}

/// The entries of `files` whose path has no baseline in `es`, in order.
pub open spec fn missing(
    es: Seq<(Seq<char>, Seq<char>)>,
    files: Seq<(Seq<char>, Seq<char>)>,
) -> Seq<(Seq<char>, Seq<char>)>
    decreases files.len(),
{
    if files.len() == 0 {
        Seq::empty()
    } else if lookup(es, files.last().0) is Some {
        missing(es, files.drop_last())
    } else {
        missing(es, files.drop_last()).push(files.last())
    }
}

proof fn lemma_lookup_concat(a: Seq<(Seq<char>, Seq<char>)>, b: Seq<(Seq<char>, Seq<char>)>, k: Seq<char>)
    ensures
        lookup(a + b, k) == if lookup(b, k) is Some {
            lookup(b, k)
        } else {
            lookup(a, k)
        },
    decreases b.len(),
{
    if b.len() > 0 {
        assert((a + b).drop_last() =~= a + b.drop_last());
        lemma_lookup_concat(a, b.drop_last(), k);
    } else {
        assert(a + b =~= a);
    }
}

proof fn lemma_lookup_missing(es: Seq<(Seq<char>, Seq<char>)>, files: Seq<(Seq<char>, Seq<char>)>, k: Seq<char>)
    ensures
        lookup(missing(es, files), k) == if lookup(es, k) is Some {
            None
        } else {
            lookup(files, k)
        },
    decreases files.len(),
{
    if files.len() > 0 {
        lemma_lookup_missing(es, files.drop_last(), k);
        let m = missing(es, files.drop_last());
        if lookup(es, files.last().0) is None {
            assert(m.push(files.last()).drop_last() =~= m);
        }
    }
}

/// In a list of entries with distinct paths, each path looks up its own
/// content.
pub proof fn lemma_lookup_unique(es: Seq<(Seq<char>, Seq<char>)>, i: int)
    requires
        paths_of(es).no_duplicates(),
        0 <= i < es.len(),
    ensures
        lookup(es, es[i].0) == Some(es[i].1),
    decreases es.len(),
{
    if i < es.len() - 1 {
        let d = es.drop_last();
        assert(paths_of(es)[i] == es[i].0);
        assert(paths_of(es)[es.len() - 1] == es.last().0);
        assert(paths_of(d) =~= paths_of(es).drop_last());
        lemma_lookup_unique(d, i);
    }
}

proof fn lemma_strings_push(s: Seq<String>, x: String)
    ensures
        strings(s.push(x)) == strings(s).push(x@),
{
    assert(strings(s.push(x)) =~= strings(s).push(x@));
}

proof fn lemma_entries_push(s: Seq<SnapshotFile>, x: SnapshotFile)
    ensures
        entries(s.push(x)) == entries(s).push((x.path@, x.contents@)),
        paths_of(entries(s.push(x))) == paths_of(entries(s)).push(x.path@),
{
    assert(entries(s.push(x)) =~= entries(s).push((x.path@, x.contents@)));
    assert(paths_of(entries(s).push((x.path@, x.contents@))) =~= paths_of(entries(s)).push(x.path@));
}

proof fn lemma_diffs_push(s: Seq<Difference>, x: Difference)
    ensures
        diff_views(s.push(x)) == diff_views(s).push(x@),
{
    assert(diff_views(s.push(x)) =~= diff_views(s).push(x@));
}

fn copy_file(f: &SnapshotFile) -> (r: SnapshotFile)
    ensures
        r.path@ == f.path@,
        r.contents@ == f.contents@,
{
    SnapshotFile { path: f.path.clone(), contents: f.contents.clone() }
}

fn copy_strings(v: &Vec<String>) -> (r: Vec<String>)
    ensures
        strings(r@) == strings(v@),
{
    let mut r: Vec<String> = Vec::new();
    let mut i: usize = 0;
    while i < v.len()
        invariant
            i <= v@.len(),
            strings(r@) == strings(v@.take(i as int)),
        decreases v@.len() - i,
    {
        proof {
            lemma_strings_push(r@, v@[i as int]);
            assert(v@.take(i + 1) =~= v@.take(i as int).push(v@[i as int]));
            lemma_strings_push(v@.take(i as int), v@[i as int]);
        }
        r.push(v[i].clone());
        i = i + 1;
    }
    assert(v@.take(v@.len() as int) =~= v@);
    r
}

fn strings_equal(a: &Vec<String>, b: &Vec<String>) -> (r: bool)
    ensures
        r == (strings(a@) == strings(b@)),
{
    if a.len() != b.len() {
        assert(strings(a@).len() != strings(b@).len());
        return false;
    }
    let mut i: usize = 0;
    while i < a.len()
        invariant
            a@.len() == b@.len(),
            i <= a@.len(),
            forall|j: int| 0 <= j < i ==> a@[j]@ == b@[j]@,
        decreases a@.len() - i,
    {
        if a[i] != b[i] {
            assert(strings(a@)[i as int] != strings(b@)[i as int]);
            return false;
        }
        i = i + 1;
    }
    assert(strings(a@) =~= strings(b@));
    true
}

/// The normalised files generated for one language, each path once.
pub struct Capture {
    files: Vec<SnapshotFile>,
}

impl View for Capture {
    type V = Seq<(Seq<char>, Seq<char>)>;

    closed spec fn view(&self) -> Seq<(Seq<char>, Seq<char>)> {
        entries(self.files@)
    }
}

impl Capture {
    #[verifier::type_invariant]
    spec fn unique_paths(self) -> bool {
        paths_of(entries(self.files@)).no_duplicates()
    }

    pub(crate) fn from_files(files: Vec<SnapshotFile>) -> (r: Capture)
        requires
            paths_of(entries(files@)).no_duplicates(),
        ensures
            r@ == entries(files@),
    {
        Capture { files }
    }

    /// The captured files, in capture order.
    pub fn files(&self) -> (r: &Vec<SnapshotFile>)
        ensures
            entries(r@) == self@,
    {
        &self.files
    }

    /// The captured paths, in capture order: what the manifest records.
    pub fn paths(&self) -> (r: Vec<String>)
        ensures
            strings(r@) == paths_of(self@),
    {
        let mut r: Vec<String> = Vec::new();
        let mut i: usize = 0;
        while i < self.files.len()
            invariant
                i <= self.files@.len(),
                strings(r@) == paths_of(entries(self.files@.take(i as int))),
            decreases self.files@.len() - i,
        {
            proof {
                let f = self.files@[i as int];
                lemma_strings_push(r@, f.path);
                assert(self.files@.take(i + 1) =~= self.files@.take(i as int).push(f));
                lemma_entries_push(self.files@.take(i as int), f);
            }
            r.push(self.files[i].path.clone());
            i = i + 1;
        }
        assert(self.files@.take(self.files@.len() as int) =~= self.files@);
        r
    }
}

/// Baselines of one language: the recorded manifest and a content per path.
pub struct SnapshotStore {
    manifest: Option<Vec<String>>,
    entries: Vec<SnapshotFile>,
}

pub open spec fn manifest_view(m: Option<Vec<String>>) -> Option<Seq<Seq<char>>> {
    match m {
        Some(v) => Some(strings(v@)),
        None => None,
    }
}

impl View for SnapshotStore {
    type V = StoreModel;

    closed spec fn view(&self) -> StoreModel {
        StoreModel { manifest: manifest_view(self.manifest), baselines: map_of(entries(self.entries@)) }
    }
}

impl SnapshotStore {
    /// A store with no baseline yet.
    pub fn new() -> (r: SnapshotStore)
        ensures
            r@.manifest is None,
            r@.baselines == Map::<Seq<char>, Seq<char>>::empty(),
    {
        let r = SnapshotStore { manifest: None, entries: Vec::new() };
        assert(r@.baselines =~= Map::<Seq<char>, Seq<char>>::empty());
        r
    }

    /// A store holding what was persisted earlier; a later entry for a path
    /// overrides an earlier one.
    pub fn from_parts(manifest: Option<Vec<String>>, files: Vec<SnapshotFile>) -> (r: SnapshotStore)
        ensures
            r@.manifest == manifest_view(manifest),
            r@.baselines == map_of(entries(files@)),
    {
        SnapshotStore { manifest, entries: files }
    }

    /// The recorded manifest, if any.
    pub fn manifest(&self) -> (r: &Option<Vec<String>>)
        ensures
            manifest_view(*r) == self@.manifest,
    {
        &self.manifest
    }

    /// The recorded entries; a later entry for a path overrides an earlier one.
    pub fn entries(&self) -> (r: &Vec<SnapshotFile>)
        ensures
            map_of(entries(r@)) == self@.baselines,
    {
        &self.entries
    }

    /// The baseline content recorded for `path`, if any.
    pub fn baseline(&self, path: &String) -> (r: Option<String>)
        ensures
            match r {
                Some(c) => self@.baselines.contains_key(path@) && self@.baselines[path@] == c@,
                None => !self@.baselines.contains_key(path@),
            },
    {
        let ghost es = entries(self.entries@);
        let mut i: usize = self.entries.len();
        assert(es.take(i as int) =~= es);
        while i > 0
            invariant
                i <= self.entries@.len(),
                es == entries(self.entries@),
                lookup(es, path@) == lookup(es.take(i as int), path@),
            decreases i,
        {
            assert(es.take(i as int).drop_last() =~= es.take(i - 1));
            if self.entries[i - 1].path == *path {
                return Some(self.entries[i - 1].contents.clone());
            }
            i = i - 1;
        }
        None
    }

    /// Every difference of `cap` against this store, without changing it.
    pub fn compare(&self, cap: &Capture) -> (r: Vec<Difference>)
        ensures
            diff_views(r@) == differences(self@, cap@),
    {
        let current = cap.paths();
        let mut out: Vec<Difference> = Vec::new();
        match &self.manifest {
            Some(m) => {
                if !strings_equal(m, &current) {
                    out.push(Difference::Manifest { baseline: copy_strings(m), current: copy_strings(&current) });
                }
            },
            None => {},
        }
        let ghost head = manifest_diffs(self@.manifest, paths_of(cap@));
        assert(diff_views(out@) =~= head);
        let files = cap.files();
        let mut i: usize = 0;
        while i < files.len()
            invariant
                i <= files@.len(),
                entries(files@) == cap@,
                diff_views(out@) == head + content_diffs(self@.baselines, cap@.take(i as int)),
            decreases files@.len() - i,
        {
            let f = &files[i];
            let b = self.baseline(&f.path);
            let ghost before = out@;
            let ghost t = cap@.take(i + 1);
            assert(t.drop_last() =~= cap@.take(i as int));
            assert(t.last() == (f.path@, f.contents@));
            match b {
                Some(base) => {
                    if base != f.contents {
                        proof {
                            lemma_diffs_push(out@, Difference::Content { path: f.path, baseline: base, current: f.contents });
                        }
                        out.push(Difference::Content { path: f.path.clone(), baseline: base, current: f.contents.clone() });
                    }
                },
                None => {},
            }
            assert(diff_views(out@) =~= head + content_diffs(self@.baselines, t));
            i = i + 1;
        }
        assert(cap@.take(files@.len() as int) =~= cap@);
        out
    }

    /// Records a baseline for every captured file that has none, and the
    /// manifest if there is none; nothing already recorded changes.
    pub fn record_missing(&mut self, cap: &Capture)
        ensures
            final(self)@ == recorded(old(self)@, cap@),
    {
        let ghost es = entries(self.entries@);
        let files = cap.files();
        let mut added: Vec<SnapshotFile> = Vec::new();
        let mut i: usize = 0;
        while i < files.len()
            invariant
                i <= files@.len(),
                entries(files@) == cap@,
                es == entries(self.entries@),
                entries(added@) == missing(es, cap@.take(i as int)),
            decreases files@.len() - i,
        {
            let f = &files[i];
            let b = self.baseline(&f.path);
            let ghost t = cap@.take(i + 1);
            assert(t.drop_last() =~= cap@.take(i as int));
            assert(t.last() == (f.path@, f.contents@));
            if b.is_none() {
                added.push(copy_file(f));
            }
            assert(entries(added@) =~= missing(es, t));
            i = i + 1;
        }
        assert(cap@.take(files@.len() as int) =~= cap@);
        let ghost add = entries(added@);
        self.entries.append(&mut added);
        assert(entries(self.entries@) =~= es + add);
        if self.manifest.is_none() {
            self.manifest = Some(cap.paths());
        }
        proof {
            let want = recorded(old(self)@, cap@);
            assert forall|k: Seq<char>| #![auto] lookup(es + add, k) == if lookup(es, k) is Some {
                lookup(es, k)
            } else {
                lookup(cap@, k)
            } by {
                lemma_lookup_concat(es, add, k);
                lemma_lookup_missing(es, cap@, k);
            }
            assert(self@.baselines =~= want.baselines);
        }
    }

    /// A normal run for one language: reports every difference against the
    /// baselines and records, as a first baseline, what had none.
    pub fn check(&mut self, cap: &Capture) -> (r: Vec<Difference>)
        ensures
            diff_views(r@) == differences(old(self)@, cap@),
            final(self)@ == recorded(old(self)@, cap@),
    {
        let r = self.compare(cap);
        self.record_missing(cap);
        r
    }

    /// The explicit accept action: every baseline of the language, and its
    /// manifest, become the capture.
    pub fn accept(&mut self, cap: &Capture)
        ensures
            final(self)@ == accepted(cap@),
    {
        let files = cap.files();
        let mut copy: Vec<SnapshotFile> = Vec::new();
        let mut i: usize = 0;
        while i < files.len()
            invariant
                i <= files@.len(),
                entries(files@) == cap@,
                entries(copy@) == cap@.take(i as int),
            decreases files@.len() - i,
        {
            let c = copy_file(&files[i]);
            proof {
                lemma_entries_push(copy@, c);
                assert(files@.take(i + 1) =~= files@.take(i as int).push(files@[i as int]));
                lemma_entries_push(files@.take(i as int), files@[i as int]);
                assert(entries(files@.take(i as int)) =~= cap@.take(i as int));
                assert(entries(files@.take(i + 1)) =~= cap@.take(i + 1));
            }
            copy.push(c);
            i = i + 1;
        }
        assert(cap@.take(files@.len() as int) =~= cap@);
        self.entries = copy;
        self.manifest = Some(cap.paths());
    }

    /// The explicit accept action for one file: its baseline becomes
    /// `contents`; every other baseline, and the manifest, stay.
    pub fn accept_file(&mut self, path: String, contents: String)
        ensures
            final(self)@.manifest == old(self)@.manifest,
            final(self)@.baselines == old(self)@.baselines.insert(path@, contents@),
    {
        let ghost es = entries(self.entries@);
        let ghost p = path@;
        let ghost c = contents@;
        self.entries.push(SnapshotFile { path, contents });
        assert(entries(self.entries@).drop_last() =~= es);
        assert(self@.baselines =~= old(self)@.baselines.insert(p, c));
    }
}

/// The store that nothing has been recorded in yet.
pub open spec fn empty_store() -> StoreModel {
    StoreModel { manifest: None, baselines: Map::empty() }
}

/// Every captured file agrees with its baseline, where it has one.
pub open spec fn agrees(b: Map<Seq<char>, Seq<char>>, files: Seq<(Seq<char>, Seq<char>)>) -> bool {
    forall|j: int| 0 <= j < files.len() && b.contains_key(#[trigger] files[j].0) ==> b[files[j].0] == files[j].1
}

/// There is no content difference exactly where every file agrees with its
/// baseline.
pub proof fn lemma_content_clean(b: Map<Seq<char>, Seq<char>>, files: Seq<(Seq<char>, Seq<char>)>)
    ensures
        content_diffs(b, files).len() == 0 <==> agrees(b, files),
    decreases files.len(),
{
    if files.len() > 0 {
        let d = files.drop_last();
        lemma_content_clean(b, d);
        assert forall|j: int| 0 <= j < d.len() implies #[trigger] d[j] == files[j] by {}
        if agrees(b, files) {
            assert(files[files.len() - 1] == files.last());
        }
        if content_diffs(b, files).len() == 0 {
            assert forall|j: int| 0 <= j < files.len() && b.contains_key(#[trigger] files[j].0) implies b[files[j].0] == files[j].1 by {
                if j < files.len() - 1 {
                    assert(d[j] == files[j]);
                }
            }
        }
    }
}

/// Bootstrap: against a store with nothing recorded, a run reports no
/// difference and records the manifest and every captured file.
pub proof fn lemma_bootstrap(files: Seq<(Seq<char>, Seq<char>)>)
    requires
        paths_of(files).no_duplicates(),
    ensures
        differences(empty_store(), files) == Seq::<DiffModel>::empty(),
        recorded(empty_store(), files).manifest == Some(paths_of(files)),
        forall|i: int| 0 <= i < files.len() ==> {
            &&& recorded(empty_store(), files).baselines.contains_key(#[trigger] files[i].0)
            &&& recorded(empty_store(), files).baselines[files[i].0] == files[i].1
        },
{
    lemma_content_clean(Map::empty(), files);
    assert(differences(empty_store(), files) =~= Seq::<DiffModel>::empty());
    assert forall|i: int| 0 <= i < files.len() implies {
        &&& recorded(empty_store(), files).baselines.contains_key(#[trigger] files[i].0)
        &&& recorded(empty_store(), files).baselines[files[i].0] == files[i].1
    } by {
        lemma_lookup_unique(files, i);
    }
}

/// Idempotence: after a run that reported no difference, running again on
/// the same capture reports none and leaves the store as it is.
pub proof fn lemma_rerun_is_clean(s: StoreModel, files: Seq<(Seq<char>, Seq<char>)>)
    requires
        paths_of(files).no_duplicates(),
        differences(s, files).len() == 0,
    ensures
        differences(recorded(s, files), files) == Seq::<DiffModel>::empty(),
        recorded(recorded(s, files), files) == recorded(s, files),
{
    let r = recorded(s, files);
    let m = manifest_diffs(s.manifest, paths_of(files));
    assert(m.len() == 0 && content_diffs(s.baselines, files).len() == 0) by {
        assert(differences(s, files).len() == m.len() + content_diffs(s.baselines, files).len());
    }
    lemma_content_clean(s.baselines, files);
    assert(agrees(r.baselines, files)) by {
        assert forall|j: int| 0 <= j < files.len() && r.baselines.contains_key(#[trigger] files[j].0) implies r.baselines[files[j].0] == files[j].1 by {
            lemma_lookup_unique(files, j);
        }
    }
    lemma_content_clean(r.baselines, files);
    assert(differences(r, files) =~= Seq::<DiffModel>::empty());
    assert forall|k: Seq<char>| lookup(files, k) is Some implies #[trigger] r.baselines.contains_key(k) by {}
    assert(recorded(r, files).baselines =~= r.baselines);
}

/// A baseline set by the accept action matches the capture it was taken
/// from: a later run on unchanged output reports no difference.
pub proof fn lemma_accepted_is_clean(files: Seq<(Seq<char>, Seq<char>)>)
    requires
        paths_of(files).no_duplicates(),
    ensures
        differences(accepted(files), files) == Seq::<DiffModel>::empty(),
        recorded(accepted(files), files) == accepted(files),
{
    let a = accepted(files);
    assert(agrees(a.baselines, files)) by {
        assert forall|j: int| 0 <= j < files.len() && a.baselines.contains_key(#[trigger] files[j].0) implies a.baselines[files[j].0] == files[j].1 by {
            lemma_lookup_unique(files, j);
        }
    }
    lemma_content_clean(a.baselines, files);
    assert(differences(a, files) =~= Seq::<DiffModel>::empty());
    assert(recorded(a, files).baselines =~= a.baselines);
}

proof fn lemma_content_one_change(
    b: Map<Seq<char>, Seq<char>>,
    files: Seq<(Seq<char>, Seq<char>)>,
    i: int,
    c: Seq<char>,
)
    requires
        agrees(b, files),
        0 <= i < files.len(),
        b.contains_key(files[i].0),
        c != files[i].1,
    ensures
        content_diffs(b, files.update(i, (files[i].0, c)))
            == seq![DiffModel::Content { path: files[i].0, baseline: files[i].1, current: c }],
    decreases files.len(),
{
    let u = files.update(i, (files[i].0, c));
    let d = files.drop_last();
    assert forall|j: int| 0 <= j < d.len() implies #[trigger] d[j] == files[j] by {}
    assert(agrees(b, d));
    if i == files.len() - 1 {
        assert(u.drop_last() =~= d);
        lemma_content_clean(b, d);
        assert(content_diffs(b, u) =~= seq![DiffModel::Content { path: files[i].0, baseline: files[i].1, current: c }]);
    } else {
        assert(u.drop_last() =~= d.update(i, (files[i].0, c)));
        lemma_content_one_change(b, d, i, c);
        assert(u.last() == files.last());
        assert(files.last() == files[files.len() - 1]);
        assert(content_diffs(b, u) =~= seq![DiffModel::Content { path: files[i].0, baseline: files[i].1, current: c }]);
    }
}

/// Against a baseline the capture agrees with, changing the content of one
/// file that has a baseline is reported as exactly one difference, for that
/// file.
pub proof fn lemma_one_changed_file(s: StoreModel, files: Seq<(Seq<char>, Seq<char>)>, i: int, c: Seq<char>)
    requires
        differences(s, files).len() == 0,
        0 <= i < files.len(),
        s.baselines.contains_key(files[i].0),
        c != files[i].1,
    ensures
        differences(s, files.update(i, (files[i].0, c)))
            == seq![DiffModel::Content { path: files[i].0, baseline: files[i].1, current: c }],
{
    let u = files.update(i, (files[i].0, c));
    assert(differences(s, files).len() == manifest_diffs(s.manifest, paths_of(files)).len()
        + content_diffs(s.baselines, files).len());
    lemma_content_clean(s.baselines, files);
    lemma_content_one_change(s.baselines, files, i, c);
    assert(paths_of(u) =~= paths_of(files));
    assert(differences(s, u) =~= seq![DiffModel::Content { path: files[i].0, baseline: files[i].1, current: c }]);
}

/// Removing a captured file, with a baseline that otherwise matches, is
/// reported as a manifest difference and nothing else, though no remaining
/// file's content changed.
pub proof fn lemma_removed_file_detected(s: StoreModel, files: Seq<(Seq<char>, Seq<char>)>, i: int)
    requires
        s.manifest is Some,
        differences(s, files).len() == 0,
        0 <= i < files.len(),
    ensures
        differences(s, files.remove(i))
            == seq![DiffModel::Manifest { baseline: paths_of(files), current: paths_of(files.remove(i)) }],
{
    let r = files.remove(i);
    assert(differences(s, files).len() == manifest_diffs(s.manifest, paths_of(files)).len()
        + content_diffs(s.baselines, files).len());
    assert(s.manifest == Some(paths_of(files)));
    assert(paths_of(r).len() != paths_of(files).len());
    lemma_content_clean(s.baselines, files);
    assert(agrees(s.baselines, r)) by {
        assert forall|j: int| 0 <= j < r.len() && s.baselines.contains_key(#[trigger] r[j].0) implies s.baselines[r[j].0] == r[j].1 by {
            if j < i {
                assert(r[j] == files[j]);
            } else {
                assert(r[j] == files[j + 1]);
            }
        }
    }
    lemma_content_clean(s.baselines, r);
    assert(differences(s, r) =~= seq![DiffModel::Manifest { baseline: paths_of(files), current: paths_of(r) }]);
}

} // verus!
