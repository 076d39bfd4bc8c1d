//! Data model of the pipeline: identifiers, records, jobs, results and rules.

use vstd::prelude::*;

verus! {

/// Stable identifier of a file in the remote store.
#[derive(Debug, Clone, PartialEq, Eq, Hash)]
pub struct DropboxId(pub String);

impl View for DropboxId {
    type V = Seq<char>;

    open spec fn view(&self) -> Seq<char> {
        self.0@
    }
}

impl DeepView for DropboxId {
    type V = Seq<char>;

    open spec fn deep_view(&self) -> Seq<char> {
        self.0@
    }
}

impl DropboxId {
    /// An explicit copy whose view is provably the same.
    pub fn duplicate(&self) -> (r: DropboxId)
        ensures
            r@ == self@,
    {
        DropboxId(self.0.clone())
    }
}

/// A path in the remote store.
#[derive(Debug, Clone, PartialEq, Eq)]
pub struct RemotePath(pub String);

impl View for RemotePath {
    type V = Seq<char>;

    open spec fn view(&self) -> Seq<char> {
        self.0@
    }
}

impl DeepView for RemotePath {
    type V = Seq<char>;

    open spec fn deep_view(&self) -> Seq<char> {
        self.0@
    }
}

impl RemotePath {
    /// An explicit copy whose view is provably the same.
    pub fn duplicate(&self) -> (r: RemotePath)
        ensures
            r@ == self@,
    {
        RemotePath(self.0.clone())
    }
}

/// A path on the local machine, kept as a plain string.
#[derive(Debug, Clone, PartialEq, Eq)]
pub struct LocalPath(pub String);

impl View for LocalPath {
    type V = Seq<char>;

    open spec fn view(&self) -> Seq<char> {
        self.0@
    }
}

/// The local directory that working copies are written under.
#[derive(Debug, Clone, PartialEq, Eq)]
pub struct WorkDirectory(pub String);

impl View for WorkDirectory {
    type V = Seq<char>;

    open spec fn view(&self) -> Seq<char> {
        self.0@
    }
}

/// The remote folder that new documents arrive in.
#[derive(Debug, Clone, PartialEq, Eq)]
pub struct DropboxInbox(pub String);

impl View for DropboxInbox {
    type V = Seq<char>;

    open spec fn view(&self) -> Seq<char> {
        self.0@
    }
}

/// Opaque content fingerprint supplied by the remote store; used only for
/// change detection.
#[derive(Debug, Clone, PartialEq, Eq)]
pub struct FileHash(pub String);

impl View for FileHash {
    type V = Seq<char>;

    open spec fn view(&self) -> Seq<char> {
        self.0@
    }
}

impl FileHash {
    /// An explicit copy whose view is provably the same.
    pub fn duplicate(&self) -> (r: FileHash)
        ensures
            r@ == self@,
    {
        FileHash(self.0.clone())
    }
}

/// A one-line summary of an article.
#[derive(Debug, Clone, PartialEq, Eq)]
pub struct OneLineSummary(pub String);

impl View for OneLineSummary {
    type V = Seq<char>;

    open spec fn view(&self) -> Seq<char> {
        self.0@
    }
}

/// Mathematical model of [`ArticleMetadata`].
pub ghost struct MetaModel {
    pub title: Seq<char>,
    pub authors: Seq<Seq<char>>,
    pub summary: Seq<char>,
    pub abstract_text: Seq<char>,
}

/// Metadata extracted from an article by the classification collaborator.
#[derive(Debug, Clone)]
pub struct ArticleMetadata {
    pub title: String,
    pub authors: Vec<String>,
    pub summary: OneLineSummary,
    pub abstract_text: String,
}

impl View for ArticleMetadata {
    type V = MetaModel;

    open spec fn view(&self) -> MetaModel {
        MetaModel {
            title: self.title@,
            authors: self.authors.deep_view(),
            summary: self.summary@,
            abstract_text: self.abstract_text@,
        }
    }
}

/// Copies a vector of strings; the result has the same view element by
/// element.
pub fn dup_strings(v: &Vec<String>) -> (r: Vec<String>)
    ensures
        r.deep_view() == v.deep_view(),
{
    let mut r: Vec<String> = Vec::new();
    let mut i: usize = 0;
    while i < v.len()
        invariant
            i <= v.len(),
            r@.len() == i,
            forall|j: int| 0 <= j < i ==> r@[j]@ == v@[j]@,
        decreases v.len() - i,
    {
        let s = v[i].clone();
        proof {
            assert(s@ == v@[i as int]@);
        }
        r.push(s);
        i = i + 1;
    }
    proof {
        assert forall|j: int| 0 <= j < r.deep_view().len() implies r.deep_view()[j]
            == v.deep_view()[j] by {
            assert(r.deep_view()[j] == r@[j]@);
            assert(v.deep_view()[j] == v@[j]@);
        }
        assert(r.deep_view() =~= v.deep_view());
    }
    r
}

impl ArticleMetadata {
    /// An explicit copy whose view is provably the same.
    pub fn duplicate(&self) -> (r: ArticleMetadata)
        ensures
            r@ == self@,
    {
        ArticleMetadata {
            title: self.title.clone(),
            authors: dup_strings(&self.authors),
            summary: OneLineSummary(self.summary.0.clone()),
            abstract_text: self.abstract_text.clone(),
        }
    }
}

/// Progress state of one record; `Downloaded`, `Archived` and `Skipped` are
/// reserved states with no transition into them in the current flow.
#[derive(Debug, Clone, Copy, PartialEq, Eq, Structural)]
pub enum FileStatus {
    Pending,
    Downloaded,
    Processed,
    Archived,
    Error,
    Skipped,
}

/// Copies an optional string; the result has the same view.
pub fn dup_opt_string(v: &Option<String>) -> (r: Option<String>)
    ensures
        r.deep_view() == v.deep_view(),
{
    match v {
        Some(s) => Some(s.clone()),
        None => None,
    }
}

/// Copies a vector of remote paths; the result has the same view element by
/// element.
pub fn dup_remote_paths(v: &Vec<RemotePath>) -> (r: Vec<RemotePath>)
    ensures
        r.deep_view() == v.deep_view(),
{
    let mut r: Vec<RemotePath> = Vec::new();
    let mut i: usize = 0;
    while i < v.len()
        invariant
            i <= v.len(),
            r@.len() == i,
            forall|j: int| 0 <= j < i ==> r@[j]@ == v@[j]@,
        decreases v.len() - i,
    {
        let p = v[i].duplicate();
        r.push(p);
        i = i + 1;
    }
    proof {
        assert forall|j: int| 0 <= j < r.deep_view().len() implies r.deep_view()[j]
            == v.deep_view()[j] by {
            assert(r.deep_view()[j] == r@[j]@);
            assert(v.deep_view()[j] == v@[j]@);
        }
        assert(r.deep_view() =~= v.deep_view());
    }
    r
}

/// Mathematical model of [`FileRecord`]: every text field as a sequence of
/// characters.
pub ghost struct RecordModel {
    pub id: Seq<char>,
    pub name: Option<Seq<char>>,
    pub hash: Seq<char>,
    pub status: FileStatus,
    pub title: Option<Seq<char>>,
    pub authors: Option<Seq<Seq<char>>>,
    pub summary: Option<Seq<char>>,
    pub target_paths: Option<Seq<Seq<char>>>,
    pub last_error: Option<Seq<char>>,
    pub updated_at: u64,
}

impl RecordModel {
    /// The record with its timestamp blanked: what two states must agree on
    /// when only clock values may differ.
    pub open spec fn stable_part(self) -> RecordModel {
        RecordModel { updated_at: 0, ..self }
    }
}

/// One row of the record store: the durable progress state of one remote file.
#[derive(Debug, Clone)]
pub struct FileRecord {
    pub dropbox_id: DropboxId,
    pub file_name: Option<String>,
    pub content_hash: FileHash,
    pub status: FileStatus,
    pub title: Option<String>,
    pub authors: Option<Vec<String>>,
    pub summary: Option<String>,
    pub target_paths: Option<Vec<RemotePath>>,
    pub last_error: Option<String>,
    pub updated_at: u64,
}

impl View for FileRecord {
    type V = RecordModel;

    open spec fn view(&self) -> RecordModel {
        RecordModel {
            id: self.dropbox_id@,
            name: self.file_name.deep_view(),
            hash: self.content_hash@,
            status: self.status,
            title: self.title.deep_view(),
            authors: self.authors.deep_view(),
            summary: self.summary.deep_view(),
            target_paths: self.target_paths.deep_view(),
            last_error: self.last_error.deep_view(),
            updated_at: self.updated_at,
        }
    }
}

impl DeepView for FileRecord {
    type V = RecordModel;

    open spec fn deep_view(&self) -> RecordModel {
        self.view()
    }
}

impl FileRecord {
    /// An explicit copy whose view is provably the same.
    pub fn duplicate(&self) -> (r: FileRecord)
        ensures
            r@ == self@,
    {
        FileRecord {
            dropbox_id: self.dropbox_id.duplicate(),
            file_name: dup_opt_string(&self.file_name),
            content_hash: self.content_hash.duplicate(),
            status: self.status,
            title: dup_opt_string(&self.title),
            authors: match &self.authors {
                Some(a) => Some(dup_strings(a)),
                None => None,
            },
            summary: dup_opt_string(&self.summary),
            target_paths: match &self.target_paths {
                Some(t) => Some(dup_remote_paths(t)),
                None => None,
            },
            last_error: dup_opt_string(&self.last_error),
            updated_at: self.updated_at,
        }
    }
}

/// Mathematical model of [`Job`].
pub ghost struct JobModel {
    pub id: Seq<char>,
    pub name: Option<Seq<char>>,
    pub path: Seq<char>,
}

/// Ephemeral unit of work: one record's processing attempt in the current
/// batch.
#[derive(Debug, Clone)]
pub struct Job {
    pub id: DropboxId,
    pub file_name: Option<String>,
    pub path: RemotePath,
}

impl View for Job {
    type V = JobModel;

    open spec fn view(&self) -> JobModel {
        JobModel { id: self.id@, name: self.file_name.deep_view(), path: self.path@ }
    }
}

impl DeepView for Job {
    type V = JobModel;

    open spec fn deep_view(&self) -> JobModel {
        self.view()
    }
}

impl Job {
    /// An explicit copy whose view is provably the same.
    pub fn duplicate(&self) -> (r: Job)
        ensures
            r@ == self@,
    {
        Job {
            id: self.id.duplicate(),
            file_name: dup_opt_string(&self.file_name),
            path: self.path.duplicate(),
        }
    }
}

/// Mathematical model of [`JobResult`].
pub ghost enum ResultModel {
    Success {
        id: Seq<char>,
        name: Option<Seq<char>>,
        meta: MetaModel,
        target_paths: Seq<Seq<char>>,
    },
    Failure { id: Seq<char>, name: Option<Seq<char>>, error: Seq<char> },
}

impl ResultModel {
    /// The identifier the result speaks about.
    pub open spec fn id(self) -> Seq<char> {
        match self {
            ResultModel::Success { id, .. } => id,
            ResultModel::Failure { id, .. } => id,
        }
    }

    /// The display name the result carries.
    pub open spec fn name(self) -> Option<Seq<char>> {
        match self {
            ResultModel::Success { name, .. } => name,
            ResultModel::Failure { name, .. } => name,
        }
    }
}

/// Tagged outcome of one job; the sole input to a status transition.
#[derive(Debug, Clone)]
pub enum JobResult {
    Success {
        id: DropboxId,
        file_name: Option<String>,
        meta: ArticleMetadata,
        target_paths: Vec<RemotePath>,
    },
    Failure { id: DropboxId, file_name: Option<String>, error: String },
}

impl View for JobResult {
    type V = ResultModel;

    open spec fn view(&self) -> ResultModel {
        match self {
            JobResult::Success { id, file_name, meta, target_paths } => ResultModel::Success {
                id: id@,
                name: file_name.deep_view(),
                meta: meta@,
                target_paths: target_paths.deep_view(),
            },
            JobResult::Failure { id, file_name, error } => ResultModel::Failure {
                id: id@,
                name: file_name.deep_view(),
                error: error@,
            },
        }
    }
}

/// Mathematical model of [`Rule`].
pub ghost struct RuleModel {
    pub name: Seq<char>,
    pub description: Seq<char>,
    pub path: Seq<char>,
}

/// One re-filing rule: a named criterion and the target path that matching
/// documents are copied to.
#[derive(Debug, Clone)]
pub struct Rule {
    pub name: String,
    pub description: String,
    pub path: RemotePath,
}

impl View for Rule {
    type V = RuleModel;

    open spec fn view(&self) -> RuleModel {
        RuleModel { name: self.name@, description: self.description@, path: self.path@ }
    }
}

impl DeepView for Rule {
    type V = RuleModel;

    open spec fn deep_view(&self) -> RuleModel {
        self.view()
    }
}

impl Rule {
    /// An explicit copy whose view is provably the same.
    pub fn duplicate(&self) -> (r: Rule)
        ensures
            r@ == self@,
    {
        Rule {
            name: self.name.clone(),
            description: self.description.clone(),
            path: self.path.duplicate(),
        }
    }
}

/// The full, batch-scoped rule set: immutable once built and read by every
/// worker.
#[derive(Debug, Clone)]
pub struct Rules(pub Vec<Rule>);

impl View for Rules {
    type V = Seq<RuleModel>;

    open spec fn view(&self) -> Seq<RuleModel> {
        self.0.deep_view()
    }
}

/// The rules whose names occur in `names`, in rule-set order.
pub open spec fn matching_rules(rules: Seq<RuleModel>, names: Seq<Seq<char>>) -> Seq<RuleModel>
    decreases rules.len(),
{
    if rules.len() == 0 {
        Seq::empty()
    } else {
        let rest = matching_rules(rules.drop_last(), names);
        if names.contains(rules.last().name) {
            rest.push(rules.last())
        } else {
            rest
        }
    }
}

impl Rules {
    /// Selects the rules whose names the classification service answered
    /// with; unknown names select nothing.
    pub fn match_names(&self, names: &Vec<String>) -> (r: Vec<Rule>)
        ensures
            r.deep_view() == matching_rules(self@, names.deep_view()),
    {
        let mut r: Vec<Rule> = Vec::new();
        let mut i: usize = 0;
        while i < self.0.len()
            invariant
                i <= self.0@.len(),
                self@.len() == self.0@.len(),
                forall|j: int| 0 <= j < self.0@.len() ==> self@[j] == self.0@[j]@,
                r.deep_view() == matching_rules(self@.take(i as int), names.deep_view()),
            decreases self.0.len() - i,
        {
            proof {
                assert(self@.take(i + 1).drop_last() =~= self@.take(i as int));
                assert(self@.take(i + 1).last() == self@[i as int]);
            }
            if crate::text::contains_str(names, self.0[i].name.as_str()) {
                let ghost before = r.deep_view();
                let d = self.0[i].duplicate();
                r.push(d);
                proof {
                    assert(r.deep_view() =~= before.push(self@[i as int]));
                }
            }
            i = i + 1;
        }
        proof {
            assert(self@.take(self@.len() as int) =~= self@);
        }
        r
    }
}

impl From<Vec<Rule>> for Rules {
    fn from(rules: Vec<Rule>) -> (r: Rules) {
        Rules(rules)
    }
}

impl vstd::std_specs::convert::FromSpecImpl<Vec<Rule>> for Rules {
    open spec fn obeys_from_spec() -> bool {
        true
    }

    open spec fn from_spec(rules: Vec<Rule>) -> Rules {
        Rules(rules)
    }
}

/// Copies a vector of rules; the result has the same view element by element.
pub fn dup_rules(v: &Vec<Rule>) -> (r: Vec<Rule>)
    ensures
        r.deep_view() == v.deep_view(),
{
    let mut r: Vec<Rule> = Vec::new();
    let mut i: usize = 0;
    while i < v.len()
        invariant
            i <= v.len(),
            r@.len() == i,
            forall|j: int| 0 <= j < i ==> r@[j]@ == v@[j]@,
        decreases v.len() - i,
    {
        let p = v[i].duplicate();
        r.push(p);
        i = i + 1;
    }
    proof {
        assert forall|j: int| 0 <= j < r.deep_view().len() implies r.deep_view()[j]
            == v.deep_view()[j] by {
            assert(r.deep_view()[j] == r@[j]@);
            assert(v.deep_view()[j] == v@[j]@);
        }
        assert(r.deep_view() =~= v.deep_view());
    }
    r
}

} // verus!
