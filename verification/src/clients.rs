//! The pipeline's collaborators: the remote file store, the classification
//! service and the local working-copy store, each a trait with a verified
//! in-memory implementation for deterministic runs.  Live network-backed
//! implementations plug in from outside the library.

use vstd::prelude::*;

use crate::models::{
    ArticleMetadata, DropboxId, FileHash, LocalPath, MetaModel, OneLineSummary, RemotePath, Rule,
    RuleModel, Rules,
};
use crate::text::{contains_str, str_contains, str_eq};

verus! {

/// Mathematical model of [`DropboxEntry`].
pub ghost struct EntryModel {
    pub id: Seq<char>,
    pub name: Seq<char>,
    pub path: Seq<char>,
    pub hash: Seq<char>,
}

/// One file of a remote listing: identifier, display name, path and content
/// hash.  Folders never appear.
#[derive(Debug, Clone)]
pub struct DropboxEntry {
    pub id: DropboxId,
    pub name: String,
    pub path: RemotePath,
    pub content_hash: FileHash,
}

impl View for DropboxEntry {
    type V = EntryModel;

    open spec fn view(&self) -> EntryModel {
        EntryModel { id: self.id@, name: self.name@, path: self.path@, hash: self.content_hash@ }
    }
}

impl DeepView for DropboxEntry {
    type V = EntryModel;

    open spec fn deep_view(&self) -> EntryModel {
        self.view()
    }
}

impl DropboxEntry {
    /// An explicit copy whose view is provably the same.
    pub fn duplicate(&self) -> (r: DropboxEntry)
        ensures
            r@ == self@,
    {
        DropboxEntry {
            id: self.id.duplicate(),
            name: self.name.clone(),
            path: self.path.duplicate(),
            content_hash: self.content_hash.duplicate(),
        }
    }
}

/// Copies a vector of entries; the result has the same view element by
/// element.
pub fn dup_entries(v: &Vec<DropboxEntry>) -> (r: Vec<DropboxEntry>)
    ensures
        r.deep_view() == v.deep_view(),
{
    let mut r: Vec<DropboxEntry> = Vec::new();
    let mut i: usize = 0;
    while i < v.len()
        invariant
            i <= v.len(),
            r@.len() == i,
            forall|j: int| 0 <= j < i ==> r@[j]@ == v@[j]@,
        decreases v.len() - i,
    {
        let p = v[i].duplicate();
        r.push(p);
        i = i + 1;
    }
    proof {
        assert forall|j: int| 0 <= j < r.deep_view().len() implies r.deep_view()[j]
            == v.deep_view()[j] by {
            assert(r.deep_view()[j] == r@[j]@);
            assert(v.deep_view()[j] == v@[j]@);
        }
        assert(r.deep_view() =~= v.deep_view());
    }
    r
}

/// The finite map a sequence of key/value pairs stands for; later pairs
/// shadow earlier ones.
pub open spec fn pairs_to_map(s: Seq<(Seq<char>, Seq<u8>)>) -> Map<Seq<char>, Seq<u8>>
    decreases s.len(),
{
    if s.len() == 0 {
        Map::empty()
    } else {
        pairs_to_map(s.drop_last()).insert(s.last().0, s.last().1)
    }
}

/// A key held by no pair is absent from the map.
pub proof fn lemma_pairs_absent(s: Seq<(Seq<char>, Seq<u8>)>, k: Seq<char>)
    requires
        forall|j: int| 0 <= j < s.len() ==> (#[trigger] s[j]).0 != k,
    ensures
        !pairs_to_map(s).contains_key(k),
    decreases s.len(),
{
    if s.len() > 0 {
        let butlast = s.drop_last();
        assert forall|j: int| 0 <= j < butlast.len() implies (#[trigger] butlast[j]).0 != k by {
            assert(butlast[j] == s[j]);
        }
        lemma_pairs_absent(butlast, k);
    }
}

/// The map binds a key to the value of its last pair holding that key.
pub proof fn lemma_pairs_lookup(s: Seq<(Seq<char>, Seq<u8>)>, k: Seq<char>, i: int)
    requires
        0 <= i < s.len(),
        s[i].0 == k,
        forall|j: int| i < j < s.len() ==> (#[trigger] s[j]).0 != k,
    ensures
        pairs_to_map(s).contains_key(k),
        pairs_to_map(s)[k] == s[i].1,
    decreases s.len(),
{
    let butlast = s.drop_last();
    if i == s.len() - 1 {
    } else {
        assert(s.last().0 != k);
        assert(butlast[i] == s[i]);
        assert forall|j: int| i < j < butlast.len() implies (#[trigger] butlast[j]).0 != k by {
            assert(butlast[j] == s[j]);
        }
        lemma_pairs_lookup(butlast, k, i);
    }
}

/// An in-memory table of named byte contents, the shared backing of the
/// fake collaborators.
pub struct ContentMap {
    entries: Vec<(String, Vec<u8>)>,
}

impl View for ContentMap {
    type V = Map<Seq<char>, Seq<u8>>;

    closed spec fn view(&self) -> Map<Seq<char>, Seq<u8>> {
        pairs_to_map(
            Seq::new(self.entries@.len(), |i: int| (self.entries@[i].0@, self.entries@[i].1@)),
        )
    }
}

impl ContentMap {
    /// The pairs as a ghost sequence.
    spec fn pair_views(&self) -> Seq<(Seq<char>, Seq<u8>)> {
        Seq::new(self.entries@.len(), |i: int| (self.entries@[i].0@, self.entries@[i].1@))
    }

    /// An empty table.
    pub fn new() -> (r: ContentMap)
        ensures
            r@ == Map::<Seq<char>, Seq<u8>>::empty(),
    {
        let r = ContentMap { entries: Vec::new() };
        proof {
            assert(r.pair_views() =~= Seq::<(Seq<char>, Seq<u8>)>::empty());
        }
        r
    }

    /// Looks the key up; the latest binding wins.
    pub fn get(&self, key: &str) -> (r: Option<&Vec<u8>>)
        ensures
            match r {
                Some(v) => self@.contains_key(key@) && v@ == self@[key@],
                None => !self@.contains_key(key@),
            },
    {
        let mut i: usize = self.entries.len();
        while i > 0
            invariant
                i <= self.entries@.len(),
                forall|j: int| i <= j < self.entries@.len() ==> self.entries@[j].0@ != key@,
            decreases i,
    {
            i = i - 1;
            if str_eq(self.entries[i].0.as_str(), key) {
                proof {
                    assert(self.pair_views()[i as int].0 == key@);
                    assert forall|j: int|
                        i < j < self.pair_views().len() implies (#[trigger] self.pair_views()[j]).0
                        != key@ by {
                        assert(self.entries@[j].0@ != key@);
                    }
                    lemma_pairs_lookup(self.pair_views(), key@, i as int);
                }
                return Some(&self.entries[i].1);
            }
        }
        proof {
            assert forall|j: int|
                0 <= j < self.pair_views().len() implies (#[trigger] self.pair_views()[j]).0
                != key@ by {
                assert(self.entries@[j].0@ != key@);
            }
            lemma_pairs_absent(self.pair_views(), key@);
        }
        None
    }

    /// Returns whether the key is present.
    pub fn contains_key(&self, key: &str) -> (b: bool)
        ensures
            b == self@.contains_key(key@),
    {
        match self.get(key) {
            Some(_) => true,
            None => false,
        }
    }

    /// Binds the key to the content; the new binding shadows any earlier
    /// one.
    pub fn insert(&mut self, key: String, value: Vec<u8>)
        ensures
            final(self)@ == old(self)@.insert(key@, value@),
    {
        let ghost old_pairs = self.pair_views();
        let ghost k = key@;
        let ghost v = value@;
        self.entries.push((key, value));
        proof {
            assert(self.pair_views().drop_last() =~= old_pairs);
            assert(self.pair_views().last() == (k, v));
        }
    }
}

/// The remote file store.  Its abstract state is the map from remote names
/// (identifiers and paths alike) to stored bytes; a download that succeeds
/// returns the stored bytes, an upload that succeeds stores exactly what was
/// sent and changes nothing else, and a failed upload changes nothing.
/// Nothing promises that a call succeeds: a live store decides that itself.
pub trait DropboxClient: Sized {
    /// The stored contents, by remote name.
    spec fn files(&self) -> Map<Seq<char>, Seq<u8>>;

    /// Lists the files of a folder; folders themselves are excluded and
    /// pagination is the implementation's business.
    fn list_folder(&self, path: &str) -> (r: Result<Vec<DropboxEntry>, String>);

    /// Downloads a file's bytes by identifier.
    fn download_file(&self, id: &DropboxId) -> (r: Result<Vec<u8>, String>)
        ensures
            r matches Ok(c) ==> self.files().contains_key(id@) && c@ == self.files()[id@],
    ;

    /// Uploads bytes to a path, overwriting.
    fn upload_file(&mut self, path: &RemotePath, content: Vec<u8>) -> (r: Result<(), String>)
        ensures
            r is Ok ==> final(self).files() == old(self).files().insert(path@, content@),
            r is Err ==> final(self).files() == old(self).files(),
    ;
}

/// The classification service: hands back article metadata and the matching
/// rules for a text.  What it answers is its own business; the pipeline is
/// correct for every answer.
pub trait LlmClient: Sized {
    /// Queries the service with the text and the full rule set.
    fn query_llm(&self, text: &str, rules: &Rules) -> (r: Result<
        (ArticleMetadata, Vec<Rule>),
        String,
    >);
}

/// The local working-copy store.  Its abstract state is the map from local
/// paths to saved bytes; a save that succeeds stores exactly what was given,
/// a failed save changes nothing.
pub trait LocalStore: Sized {
    /// The saved contents, by local path.
    spec fn saved(&self) -> Map<Seq<char>, Seq<u8>>;

    /// Writes one working copy.
    fn save(&mut self, path: &LocalPath, content: &Vec<u8>) -> (r: Result<(), String>)
        ensures
            r is Ok ==> final(self).saved() == old(self).saved().insert(path@, content@),
            r is Err ==> final(self).saved() == old(self).saved(),
    ;
}

/// The allow-list gate a live remote store applies before an upload: the
/// target must lie under the allowed prefix, or the upload is refused as a
/// hard error.
pub fn upload_path_allowed(path: &RemotePath, allowed_prefix: &str) -> (b: bool)
    ensures
        b == crate::text::starts_with_seq(path@, allowed_prefix@),
{
    crate::text::str_starts_with(path.0.as_str(), allowed_prefix)
}

/// In-memory remote store for deterministic runs: entries to list, contents
/// to download, and an injectable set of paths whose uploads fail.
pub struct FakeDropboxClient {
    files: ContentMap,
    entries: Vec<DropboxEntry>,
    rejected: Vec<String>,
}

impl FakeDropboxClient {
    /// The paths whose uploads this fake refuses.
    pub closed spec fn rejected_paths(&self) -> Seq<Seq<char>> {
        self.rejected.deep_view()
    }

    /// The listing this fake answers with.
    pub closed spec fn listing(&self) -> Seq<EntryModel> {
        self.entries.deep_view()
    }

    /// An empty fake store.
    pub fn new() -> (r: FakeDropboxClient)
        ensures
            r.files() == Map::<Seq<char>, Seq<u8>>::empty(),
            r.listing() == Seq::<EntryModel>::empty(),
            r.rejected_paths() == Seq::<Seq<char>>::empty(),
    {
        let r = FakeDropboxClient {
            files: ContentMap::new(),
            entries: Vec::new(),
            rejected: Vec::new(),
        };
        proof {
            assert(r.listing() =~= Seq::<EntryModel>::empty());
            assert(r.rejected_paths() =~= Seq::<Seq<char>>::empty());
        }
        r
    }

    /// Adds one listable entry together with its downloadable content.
    pub fn add_entry(&mut self, entry: DropboxEntry, content: Vec<u8>)
        ensures
            final(self).listing() == old(self).listing().push(entry@),
            final(self).files() == old(self).files().insert(entry.id@, content@),
            final(self).rejected_paths() == old(self).rejected_paths(),
    {
        let ghost e = entry@;
        let key = entry.id.0.clone();
        self.entries.push(entry);
        self.files.insert(key, content);
        proof {
            assert(self.listing() =~= old(self).listing().push(e));
        }
    }

    /// Makes every later upload to `path` fail: instrumentation for
    /// partial-failure runs.
    pub fn reject_path(&mut self, path: &RemotePath)
        ensures
            final(self).rejected_paths() == old(self).rejected_paths().push(path@),
            final(self).files() == old(self).files(),
            final(self).listing() == old(self).listing(),
    {
        self.rejected.push(path.0.clone());
        proof {
            assert(self.rejected_paths() =~= old(self).rejected_paths().push(path@));
        }
    }

    /// Looks a stored file up by its remote name.
    pub fn file_bytes(&self, name: &str) -> (r: Option<&Vec<u8>>)
        ensures
            match r {
                Some(v) => self.files().contains_key(name@) && v@ == self.files()[name@],
                None => !self.files().contains_key(name@),
            },
    {
        self.files.get(name)
    }

    /// Returns whether a file is stored under the remote name.
    pub fn has_file(&self, name: &str) -> (b: bool)
        ensures
            b == self.files().contains_key(name@),
    {
        self.files.contains_key(name)
    }
}

impl DropboxClient for FakeDropboxClient {
    closed spec fn files(&self) -> Map<Seq<char>, Seq<u8>> {
        self.files@
    }

    fn list_folder(&self, path: &str) -> (r: Result<Vec<DropboxEntry>, String>)
        ensures
            r matches Ok(es) && es.deep_view() == self.listing(),
    {
        Ok(dup_entries(&self.entries))
    }

    fn download_file(&self, id: &DropboxId) -> (r: Result<Vec<u8>, String>)
        ensures
            r is Ok == self.files().contains_key(id@),
            r matches Err(e) ==> e@ == "File not found"@,
    {
        match self.files.get(id.0.as_str()) {
            Some(v) => {
                let c = v.clone();
                proof {
                    assert(c@ =~= v@);
                }
                Ok(c)
            },
            None => Err(String::from_str("File not found")),
        }
    }

    fn upload_file(&mut self, path: &RemotePath, content: Vec<u8>) -> (r: Result<(), String>)
        ensures
            r is Ok == !old(self).rejected_paths().contains(path@),
            r matches Err(e) ==> e@ == "upload rejected: "@ + path@,
            final(self).rejected_paths() == old(self).rejected_paths(),
            final(self).listing() == old(self).listing(),
    {
        if contains_str(&self.rejected, path.0.as_str()) {
            let mut msg = String::from_str("upload rejected: ");
            msg.append(path.0.as_str());
            Err(msg)
        } else {
            self.files.insert(path.0.clone(), content);
            Ok(())
        }
    }
}

/// Mathematical model of one canned reply of the fake classification
/// service.
pub ghost struct ReplyModel {
    pub snippet: Seq<char>,
    pub meta: MetaModel,
    pub rules: Seq<RuleModel>,
}

/// One canned reply: served whenever the queried text contains the snippet.
struct CannedReply {
    snippet: String,
    meta: ArticleMetadata,
    rules: Vec<Rule>,
}

impl View for CannedReply {
    type V = ReplyModel;

    closed spec fn view(&self) -> ReplyModel {
        ReplyModel {
            snippet: self.snippet@,
            meta: self.meta@,
            rules: self.rules.deep_view(),
        }
    }
}

impl DeepView for CannedReply {
    type V = ReplyModel;

    closed spec fn deep_view(&self) -> ReplyModel {
        self.view()
    }
}

/// The index of the first canned reply whose snippet the text contains, or
/// `-1` when none matches.
pub open spec fn first_match(replies: Seq<ReplyModel>, text: Seq<char>) -> int
    decreases replies.len(),
{
    if replies.len() == 0 {
        -1
    } else if crate::text::contains_seq(text, replies[0].snippet) {
        0
    } else {
        let r = first_match(replies.drop_first(), text);
        if r == -1 {
            -1
        } else {
            r + 1
        }
    }
}

/// What `first_match` returns: a first matching index, or `-1` when no
/// snippet matches.
pub proof fn lemma_first_match(replies: Seq<ReplyModel>, text: Seq<char>)
    ensures
        first_match(replies, text) == -1 ==> forall|j: int|
            0 <= j < replies.len() ==> !crate::text::contains_seq(
                text,
                (#[trigger] replies[j]).snippet,
            ),
        first_match(replies, text) != -1 ==> {
            let r = first_match(replies, text);
            &&& 0 <= r < replies.len()
            &&& crate::text::contains_seq(text, replies[r].snippet)
            &&& forall|j: int|
                0 <= j < r ==> !crate::text::contains_seq(text, (#[trigger] replies[j]).snippet)
        },
    decreases replies.len(),
{
    if replies.len() == 0 {
    } else if crate::text::contains_seq(text, replies[0].snippet) {
    } else {
        let rest = replies.drop_first();
        lemma_first_match(rest, text);
        assert forall|j: int| 1 <= j < replies.len() implies replies[j] == rest[j - 1] by {}
    }
}

/// The answer the fake classification service gives when no snippet
/// matches.
pub open spec fn default_reply_meta() -> MetaModel {
    MetaModel {
        title: "Unknown Paper"@,
        authors: seq!["Unknown Author"@],
        summary: "A paper about something."@,
        abstract_text: "This is a default abstract."@,
    }
}

/// In-memory classification service for deterministic runs: canned replies
/// are looked up by text snippet, and a fixed default answers everything
/// else.
pub struct FakeMistralClient {
    replies: Vec<CannedReply>,
}

impl FakeMistralClient {
    /// The canned replies, in the order they were set.
    pub closed spec fn canned(&self) -> Seq<ReplyModel> {
        self.replies.deep_view()
    }

    /// A fake service with no canned replies.
    pub fn new() -> (r: FakeMistralClient)
        ensures
            r.canned() == Seq::<ReplyModel>::empty(),
    {
        let r = FakeMistralClient { replies: Vec::new() };
        proof {
            assert(r.canned() =~= Seq::<ReplyModel>::empty());
        }
        r
    }

    /// Cans one reply: any queried text containing `text_snippet` is
    /// answered with this metadata and these matching rules.
    pub fn set_response(&mut self, text_snippet: &str, meta: ArticleMetadata, matching_rules: Vec<
        Rule,
    >)
        ensures
            final(self).canned() == old(self).canned().push(
                ReplyModel {
                    snippet: text_snippet@,
                    meta: meta@,
                    rules: matching_rules.deep_view(),
                },
            ),
    {
        let ghost m = ReplyModel {
            snippet: text_snippet@,
            meta: meta@,
            rules: matching_rules.deep_view(),
        };
        self.replies.push(
            CannedReply { snippet: String::from_str(text_snippet), meta, rules: matching_rules },
        );
        proof {
            assert(self.canned() =~= old(self).canned().push(m));
        }
    }
}

impl LlmClient for FakeMistralClient {
    fn query_llm(&self, text: &str, rules: &Rules) -> (r: Result<
        (ArticleMetadata, Vec<Rule>),
        String,
    >)
        ensures
            r matches Ok(p) && {
                let m = first_match(self.canned(), text@);
                if m == -1 {
                    p.0@ == default_reply_meta() && p.1.deep_view() == Seq::<RuleModel>::empty()
                } else {
                    p.0@ == self.canned()[m].meta && p.1.deep_view() == self.canned()[m].rules
                }
            },
    {
        proof {
            lemma_first_match(self.canned(), text@);
        }
        let mut i: usize = 0;
        while i < self.replies.len()
            invariant
                i <= self.replies@.len(),
                self.canned().len() == self.replies@.len(),
                forall|j: int| 0 <= j < self.replies@.len() ==> self.canned()[j] == self.replies@[j]@,
                forall|j: int|
                    0 <= j < i ==> !crate::text::contains_seq(
                        text@,
                        (#[trigger] self.canned()[j]).snippet,
                    ),
            decreases self.replies.len() - i,
        {
            if str_contains(text, self.replies[i].snippet.as_str()) {
                proof {
                    lemma_first_match(self.canned(), text@);
                    let m = first_match(self.canned(), text@);
                    assert(crate::text::contains_seq(text@, self.canned()[i as int].snippet));
                    if m == -1 {
                        assert(!crate::text::contains_seq(text@, self.canned()[i as int].snippet));
                        assert(false);
                    } else if m < i {
                        assert(!crate::text::contains_seq(text@, self.canned()[m].snippet));
                        assert(false);
                    } else if m > i {
                        assert(false);
                    }
                }
                let meta = self.replies[i].meta.duplicate();
                let matched = crate::models::dup_rules(&self.replies[i].rules);
                return Ok((meta, matched));
            }
            i = i + 1;
        }
        let authors = vec![String::from_str("Unknown Author")];
        let meta = ArticleMetadata {
            title: String::from_str("Unknown Paper"),
            authors,
            summary: OneLineSummary(String::from_str("A paper about something.")),
            abstract_text: String::from_str("This is a default abstract."),
        };
        let matched: Vec<Rule> = Vec::new();
        proof {
            lemma_first_match(self.canned(), text@);
            let m = first_match(self.canned(), text@);
            if m != -1 {
                assert(!crate::text::contains_seq(text@, self.canned()[m].snippet));
                assert(false);
            }
            assert(meta@.authors =~= default_reply_meta().authors);
            assert(matched.deep_view() =~= Seq::<RuleModel>::empty());
        }
        Ok((meta, matched))
    }
}

/// In-memory local store for deterministic runs, with an injectable set of
/// paths whose saves fail.
pub struct FakeLocalStore {
    saved: ContentMap,
    rejected: Vec<String>,
}

impl FakeLocalStore {
    /// The paths whose saves this fake refuses.
    pub closed spec fn rejected_paths(&self) -> Seq<Seq<char>> {
        self.rejected.deep_view()
    }

    /// An empty local store.
    pub fn new() -> (r: FakeLocalStore)
        ensures
            r.saved() == Map::<Seq<char>, Seq<u8>>::empty(),
            r.rejected_paths() == Seq::<Seq<char>>::empty(),
    {
        let r = FakeLocalStore { saved: ContentMap::new(), rejected: Vec::new() };
        proof {
            assert(r.rejected_paths() =~= Seq::<Seq<char>>::empty());
        }
        r
    }

    /// Makes every later save to `path` fail: instrumentation for
    /// local-resource failures.
    pub fn reject_path(&mut self, path: &LocalPath)
        ensures
            final(self).rejected_paths() == old(self).rejected_paths().push(path@),
            final(self).saved() == old(self).saved(),
    {
        self.rejected.push(path.0.clone());
        proof {
            assert(self.rejected_paths() =~= old(self).rejected_paths().push(path@));
        }
    }

    /// Looks a saved working copy up.
    pub fn saved_bytes(&self, name: &str) -> (r: Option<&Vec<u8>>)
        ensures
            match r {
                Some(v) => self.saved().contains_key(name@) && v@ == self.saved()[name@],
                None => !self.saved().contains_key(name@),
            },
    {
        self.saved.get(name)
    }
}

impl LocalStore for FakeLocalStore {
    closed spec fn saved(&self) -> Map<Seq<char>, Seq<u8>> {
        self.saved@
    }

    fn save(&mut self, path: &LocalPath, content: &Vec<u8>) -> (r: Result<(), String>)
        ensures
            r is Ok == !old(self).rejected_paths().contains(path@),
            r matches Err(e) ==> e@ == "local save rejected: "@ + path@,
            final(self).rejected_paths() == old(self).rejected_paths(),
    {
        if contains_str(&self.rejected, path.0.as_str()) {
            let mut msg = String::from_str("local save rejected: ");
            msg.append(path.0.as_str());
            Err(msg)
        } else {
            let c = content.clone();
            proof {
                assert(c@ =~= content@);
            }
            self.saved.insert(path.0.clone(), c);
            Ok(())
        }
    }
}

} // verus!
