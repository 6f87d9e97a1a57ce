//! Proposing edited song files as a pull request, through GitHub's Git Data
//! API: one commit holding every file, on a new branch, then the pull
//! request. The flow decides each request and what to make of each reply;
//! the caller sends the requests and hands back the replies.
use vstd::prelude::*;
use crate::outside;
use crate::text;
use crate::updater;

verus! {

/// The repository that edits are proposed to.
pub const GITHUB_REPO: &'static str = "WHCanRC-Media/BookofPraise";

/// Where the flow stands: which reply it waits for.
#[derive(Clone, Copy, PartialEq, Eq, Structural, Debug)]
pub enum PrPhase {
    /// The head of the base branch.
    BaseRef,
    /// The base commit, for its tree.
    BaseCommit,
    /// The blob of file `i`.
    Blob(usize),
    /// The new tree.
    Tree,
    /// The new commit.
    Commit,
    /// The new branch.
    Branch,
    /// The pull request.
    Pull,
    /// Nothing: the flow has ended.
    Finished,
}

/// The JSON body of a request.
pub enum ApiBody {
    Empty,
    /// `{"content": <content>, "encoding": "base64"}`
    Blob { content: String },
    /// `{"base_tree": .., "tree": [{"path", "mode": "100644", "type": "blob", "sha"}, ..]}`
    Tree { base_tree: String, entries: Vec<(String, String)> },
    /// `{"message": .., "tree": .., "parents": [<parent>]}`
    Commit { message: String, tree: String, parent: String },
    /// `{"ref": .., "sha": ..}`
    Branch { ref_name: String, sha: String },
    /// `{"title": .., "body": .., "head": .., "base": ..}`
    Pull { title: String, body: String, head: String, base: String },
}

/// What the caller does next.
pub enum PrAction {
    /// Send a request (POST when `post`, else GET) to `endpoint` under the
    /// API root, and hand back the string found at the path `reply` in the
    /// JSON answer (`None` when it is missing or not a string).
    Request { post: bool, endpoint: String, body: ApiBody, reply: Vec<String> },
    /// The pull request was opened at this URL.
    Done(String),
    /// The flow failed with this message.
    Fail(String),
}

/// A request body as the contracts see it.
pub enum BodySpec {
    Empty,
    Blob { content: Seq<char> },
    Tree { base_tree: Seq<char>, entries: Seq<(Seq<char>, Seq<char>)> },
    Commit { message: Seq<char>, tree: Seq<char>, parent: Seq<char> },
    Branch { ref_name: Seq<char>, sha: Seq<char> },
    Pull { title: Seq<char>, body: Seq<char>, head: Seq<char>, base: Seq<char> },
}

/// An action as the contracts see it.
pub enum ActionSpec {
    Request { post: bool, endpoint: Seq<char>, body: BodySpec, reply: Seq<Seq<char>> },
    Done(Seq<char>),
    Fail(Seq<char>),
}

/// The views of a list of string pairs.
pub open spec fn pairs_view(v: Seq<(String, String)>) -> Seq<(Seq<char>, Seq<char>)> {
    v.map_values(|p: (String, String)| (p.0@, p.1@))
}

impl View for ApiBody {
    type V = BodySpec;

    open spec fn view(&self) -> BodySpec {
        match self {
            ApiBody::Empty => BodySpec::Empty,
            ApiBody::Blob { content } => BodySpec::Blob { content: content@ },
            ApiBody::Tree { base_tree, entries } => BodySpec::Tree {
                base_tree: base_tree@,
                entries: pairs_view(entries@),
            },
            ApiBody::Commit { message, tree, parent } => BodySpec::Commit {
                message: message@,
                tree: tree@,
                parent: parent@,
            },
            ApiBody::Branch { ref_name, sha } => BodySpec::Branch { ref_name: ref_name@, sha: sha@ },
            ApiBody::Pull { title, body, head, base } => BodySpec::Pull {
                title: title@,
                body: body@,
                head: head@,
                base: base@,
            },
        }
    }
}

impl View for PrAction {
    type V = ActionSpec;

    open spec fn view(&self) -> ActionSpec {
        match self {
            PrAction::Request { post, endpoint, body, reply } => ActionSpec::Request {
                post: *post,
                endpoint: endpoint@,
                body: body@,
                reply: text::strings_view(reply@),
            },
            PrAction::Done(u) => ActionSpec::Done(u@),
            PrAction::Fail(m) => ActionSpec::Fail(m@),
        }
    }
}

/// The state of a pull-request flow.
pub struct PrFlow {
    pub phase: PrPhase,
    pub base_branch: String,
    pub new_branch: String,
    /// Repository-relative path and content of each file.
    pub files: Vec<(String, String)>,
    pub title: String,
    pub body: String,
    pub base_sha: String,
    pub base_tree: String,
    /// Path and blob SHA of each file sent so far.
    pub entries: Vec<(String, String)>,
    pub new_tree: String,
    pub new_commit: String,
}

/// A flow's state as the contracts see it.
pub struct FlowSpec {
    pub phase: PrPhase,
    pub base_branch: Seq<char>,
    pub new_branch: Seq<char>,
    pub files: Seq<(Seq<char>, Seq<char>)>,
    pub title: Seq<char>,
    pub body: Seq<char>,
    pub base_sha: Seq<char>,
    pub base_tree: Seq<char>,
    pub entries: Seq<(Seq<char>, Seq<char>)>,
    pub new_tree: Seq<char>,
    pub new_commit: Seq<char>,
}

impl View for PrFlow {
    type V = FlowSpec;

    open spec fn view(&self) -> FlowSpec {
        FlowSpec {
            phase: self.phase,
            base_branch: self.base_branch@,
            new_branch: self.new_branch@,
            files: pairs_view(self.files@),
            title: self.title@,
            body: self.body@,
            base_sha: self.base_sha@,
            base_tree: self.base_tree@,
            entries: pairs_view(self.entries@),
            new_tree: self.new_tree@,
            new_commit: self.new_commit@,
        }
    }
}

/// `/repos/<owner>/<repo>` followed by `rest`.
pub open spec fn repo_endpoint(rest: Seq<char>) -> Seq<char> {
    "/repos/"@ + GITHUB_REPO@ + rest
}

/// Every file's content fits the base64 engine (its UTF-8 bytes, like any
/// allocation, number at most `isize::MAX`).
pub open spec fn contents_fit(files: Seq<(Seq<char>, Seq<char>)>) -> bool {
    forall|i: int| 0 <= i < files.len() ==> vstd::utf8::encode_utf8(#[trigger] files[i].1).len() <= isize::MAX
}

/// The flow's state is coherent: no two files share a path; no entry before
/// the blobs, one entry per file sent while they are sent, one entry per
/// file once past them.
pub open spec fn flow_ok(s: FlowSpec) -> bool {
    &&& contents_fit(s.files)
    &&& updater::names_distinct(s.files)
    &&& s.files.len() <= usize::MAX
    &&& s.phase != PrPhase::Finished ==> s.files.len() > 0
    &&& match s.phase {
        PrPhase::BaseRef | PrPhase::BaseCommit => s.entries.len() == 0,
        PrPhase::Blob(i) => i < s.files.len() && s.entries.len() == i,
        PrPhase::Tree | PrPhase::Commit | PrPhase::Branch | PrPhase::Pull => s.entries.len() == s.files.len(),
        _ => true,
    }
}

/// A GET request.
pub open spec fn get(endpoint: Seq<char>, reply: Seq<Seq<char>>) -> ActionSpec {
    ActionSpec::Request { post: false, endpoint, body: BodySpec::Empty, reply }
}

/// A POST request.
pub open spec fn post(endpoint: Seq<char>, body: BodySpec, reply: Seq<Seq<char>>) -> ActionSpec {
    ActionSpec::Request { post: true, endpoint, body, reply }
}

/// The request that creates the blob of file `i`.
pub open spec fn blob_request(s: FlowSpec, i: int) -> ActionSpec {
    post(
        repo_endpoint("/git/blobs"@),
        BodySpec::Blob { content: outside::base64(vstd::utf8::encode_utf8(s.files[i].1)) },
        seq!["sha"@],
    )
}

/// The first request of a flow, or its failure when there is nothing to
/// commit.
pub open spec fn start_spec(
    base_branch: Seq<char>,
    new_branch: Seq<char>,
    files: Seq<(Seq<char>, Seq<char>)>,
    title: Seq<char>,
    body: Seq<char>,
) -> (FlowSpec, ActionSpec) {
    let s = FlowSpec {
        phase: if files.len() == 0 {
            PrPhase::Finished
        } else {
            PrPhase::BaseRef
        },
        base_branch,
        new_branch,
        files,
        title,
        body,
        base_sha: Seq::empty(),
        base_tree: Seq::empty(),
        entries: Seq::empty(),
        new_tree: Seq::empty(),
        new_commit: Seq::empty(),
    };
    if files.len() == 0 {
        (s, ActionSpec::Fail("No files to commit"@))
    } else {
        (s, get(repo_endpoint("/git/ref/heads/"@ + base_branch), seq!["object"@, "sha"@]))
    }
}

/// The next state and action after a reply: `Err` is a failed request (its
/// message), `Ok` the string the request asked for, if the answer had it.
pub open spec fn advance_spec(s: FlowSpec, ev: Result<Option<Seq<char>>, Seq<char>>) -> (FlowSpec, ActionSpec) {
    let end = FlowSpec { phase: PrPhase::Finished, ..s };
    match ev {
        Err(e) => (end, ActionSpec::Fail(e)),
        Ok(reply) => match s.phase {
            PrPhase::BaseRef => match reply {
                Some(sha) => (
                    FlowSpec { phase: PrPhase::BaseCommit, base_sha: sha, ..s },
                    get(repo_endpoint("/git/commits/"@ + sha), seq!["tree"@, "sha"@]),
                ),
                None => (end, ActionSpec::Fail("Missing base ref SHA"@)),
            },
            PrPhase::BaseCommit => match reply {
                Some(sha) => {
                    let n = FlowSpec { phase: PrPhase::Blob(0), base_tree: sha, ..s };
                    (n, blob_request(n, 0))
                },
                None => (end, ActionSpec::Fail("Missing base tree SHA"@)),
            },
            PrPhase::Blob(i) => match reply {
                Some(sha) => {
                    let entries = s.entries.push((s.files[i as int].0, sha));
                    if i + 1 < s.files.len() {
                        let n = FlowSpec { phase: PrPhase::Blob((i + 1) as usize), entries, ..s };
                        (n, blob_request(n, i + 1))
                    } else {
                        (
                            FlowSpec { phase: PrPhase::Tree, entries, ..s },
                            post(
                                repo_endpoint("/git/trees"@),
                                BodySpec::Tree { base_tree: s.base_tree, entries },
                                seq!["sha"@],
                            ),
                        )
                    }
                },
                None => (end, ActionSpec::Fail("Missing blob SHA for "@ + s.files[i as int].0)),
            },
            PrPhase::Tree => match reply {
                Some(sha) => (
                    FlowSpec { phase: PrPhase::Commit, new_tree: sha, ..s },
                    post(
                        repo_endpoint("/git/commits"@),
                        BodySpec::Commit { message: s.title, tree: sha, parent: s.base_sha },
                        seq!["sha"@],
                    ),
                ),
                None => (end, ActionSpec::Fail("Missing new tree SHA"@)),
            },
            PrPhase::Commit => match reply {
                Some(sha) => (
                    FlowSpec { phase: PrPhase::Branch, new_commit: sha, ..s },
                    post(
                        repo_endpoint("/git/refs"@),
                        BodySpec::Branch { ref_name: "refs/heads/"@ + s.new_branch, sha },
                        Seq::empty(),
                    ),
                ),
                None => (end, ActionSpec::Fail("Missing new commit SHA"@)),
            },
            PrPhase::Branch => (
                FlowSpec { phase: PrPhase::Pull, ..s },
                post(
                    repo_endpoint("/pulls"@),
                    BodySpec::Pull { title: s.title, body: s.body, head: s.new_branch, base: s.base_branch },
                    seq!["html_url"@],
                ),
            ),
            PrPhase::Pull => match reply {
                Some(url) => (end, ActionSpec::Done(url)),
                None => (end, ActionSpec::Fail("Missing PR URL"@)),
            },
            PrPhase::Finished => (end, ActionSpec::Fail(Seq::empty())),
        },
    }
}

/// A reply as the flow sees it.
pub type Reply = Result<Option<Seq<char>>, Seq<char>>;

/// The state and action after handing the replies `evs`, in order, to the
/// flow that stands at `sa`.
pub open spec fn feed(sa: (FlowSpec, ActionSpec), evs: Seq<Reply>) -> (FlowSpec, ActionSpec)
    decreases evs.len(),
{
    if evs.len() == 0 {
        sa
    } else {
        feed(advance_spec(sa.0, evs[0]), evs.drop_first())
    }
}

/// Successful replies that each carry the string asked for.
pub open spec fn found(v: Seq<Seq<char>>) -> Seq<Reply> {
    v.map_values(|x: Seq<char>| Ok(Some(x)))
}

proof fn lemma_feed_append(sa: (FlowSpec, ActionSpec), a: Seq<Reply>, b: Seq<Reply>)
    ensures
        feed(sa, a + b) == feed(feed(sa, a), b),
    decreases a.len(),
{
    if a.len() > 0 {
        assert((a + b).drop_first() =~= a.drop_first() + b);
        lemma_feed_append(advance_spec(sa.0, a[0]), a.drop_first(), b);
    }
}

proof fn lemma_feed_two(sa: (FlowSpec, ActionSpec), a: Reply, b: Reply)
    ensures
        feed(sa, seq![a, b]) == advance_spec(advance_spec(sa.0, a).0, b),
{
    reveal_with_fuel(feed, 3);
    assert(seq![a, b].drop_first() =~= seq![b]);
    assert(seq![b].drop_first() =~= Seq::<Reply>::empty());
}

proof fn lemma_feed_blobs(sa: (FlowSpec, ActionSpec), shas: Seq<Seq<char>>)
    requires
        flow_ok(sa.0),
        sa.0.phase matches PrPhase::Blob(i) && shas.len() == sa.0.files.len() - i,
    ensures
        feed(sa, found(shas)).0.phase == PrPhase::Tree,
        feed(sa, found(shas)).0.files == sa.0.files,
        feed(sa, found(shas)).0.title == sa.0.title,
        feed(sa, found(shas)).0.body == sa.0.body,
        feed(sa, found(shas)).0.new_branch == sa.0.new_branch,
        feed(sa, found(shas)).0.base_branch == sa.0.base_branch,
        feed(sa, found(shas)).0.entries.len() == sa.0.files.len(),
    decreases shas.len(),
{
    reveal_with_fuel(feed, 2);
    let s = sa.0;
    let i = s.phase->0;
    assert(found(shas)[0] == Ok::<Option<Seq<char>>, Seq<char>>(Some(shas[0])));
    let next = advance_spec(s, found(shas)[0]);
    assert(found(shas).drop_first() =~= found(shas.drop_first()));
    if shas.len() > 1 {
        assert(next.0.phase == PrPhase::Blob((i + 1) as usize));
        assert(next.0.files == s.files);
        assert(next.0.entries.len() == i + 1);
        assert(flow_ok(next.0));
        lemma_feed_blobs(next, shas.drop_first());
    } else {
        assert(found(shas.drop_first()) =~= Seq::<Reply>::empty());
    }
}

/// Law: when every request succeeds and each answer has what was asked for,
/// the flow ends with the pull request's URL. `shas` are the answers in
/// turn: the base branch's head, the base tree, one blob per file, the new
/// tree and the new commit; the new branch's answer is not read; `url` is
/// the pull request's.
#[verifier::rlimit(40)]
pub proof fn law_pr_succeeds(
    base_branch: Seq<char>,
    new_branch: Seq<char>,
    files: Seq<(Seq<char>, Seq<char>)>,
    title: Seq<char>,
    body: Seq<char>,
    shas: Seq<Seq<char>>,
    url: Seq<char>,
)
    requires
        0 < files.len() <= usize::MAX,
        contents_fit(files),
        updater::names_distinct(files),
        shas.len() == files.len() + 4,
    ensures
        feed(
            start_spec(base_branch, new_branch, files, title, body),
            found(shas) + seq![Ok(None), Ok(Some(url))],
        ).1 == ActionSpec::Done(url),
{
    let n = files.len() as int;
    let s0 = start_spec(base_branch, new_branch, files, title, body);
    let head = shas.take(2);
    let blobs = shas.subrange(2, n + 2);
    let tail = shas.skip(n + 2);
    assert(found(shas) =~= found(head) + found(blobs) + found(tail));
    let last: Seq<Reply> = seq![Ok(None), Ok(Some(url))];
    lemma_feed_append(s0, found(head) + found(blobs) + found(tail), last);
    lemma_feed_append(s0, found(head) + found(blobs), found(tail));
    lemma_feed_append(s0, found(head), found(blobs));
    assert(found(head) =~= seq![Ok(Some(shas[0])), Ok(Some(shas[1]))]);
    lemma_feed_two(s0, Ok(Some(shas[0])), Ok(Some(shas[1])));
    let s1 = feed(s0, found(head));
    assert(s0.0.phase == PrPhase::BaseRef);
    assert(s1.0.phase == PrPhase::Blob(0));
    assert(s1.0.entries.len() == 0);
    assert(s1.0.files == files);
    assert(flow_ok(s1.0));
    lemma_feed_blobs(s1, blobs);
    let s2 = feed(s1, found(blobs));
    assert(found(tail) =~= seq![Ok(Some(shas[n + 2])), Ok(Some(shas[n + 3]))]);
    lemma_feed_two(s2, Ok(Some(shas[n + 2])), Ok(Some(shas[n + 3])));
    let s3 = feed(s2, found(tail));
    assert(s3.0.phase == PrPhase::Branch);
    lemma_feed_two(s3, Ok(None), Ok(Some(url)));
}

/// A reply as the flow sees it.
pub open spec fn event_view(ev: Result<Option<String>, String>) -> Result<Option<Seq<char>>, Seq<char>> {
    match ev {
        Ok(Some(s)) => Ok(Some(s@)),
        Ok(None) => Ok(None),
        Err(e) => Err(e@),
    }
}

fn string_of(v: &Vec<char>) -> (r: String)
    ensures
        r@ == v@,
{
    outside::string_from_chars(v.as_slice())
}

fn endpoint_of(rest: &Vec<char>) -> (r: String)
    ensures
        r@ == repo_endpoint(rest@),
{
    let mut v = text::chars_of("/repos/");
    text::push_all(&mut v, &text::chars_of(GITHUB_REPO));
    text::push_all(&mut v, rest);
    string_of(&v)
}

fn path_of(parts: Vec<&str>) -> (r: Vec<String>)
    ensures
        text::strings_view(r@) == parts@.map_values(|p: &str| p@),
{
    let mut r: Vec<String> = Vec::new();
    let mut k: usize = 0;
    while k < parts.len()
        invariant
            k <= parts.len(),
            text::strings_view(r@) == parts@.take(k as int).map_values(|p: &str| p@),
        decreases parts.len() - k,
    {
        let ghost r0 = text::strings_view(r@);
        r.push(text::owned(parts[k]));
        assert(text::strings_view(r@) =~= r0.push(parts@[k as int]@));
        assert(parts@.take(k + 1).map_values(|p: &str| p@) =~= parts@.take(k as int).map_values(|p: &str| p@).push(
            parts@[k as int]@,
        ));
        k += 1;
    }
    assert(parts@.take(parts.len() as int) =~= parts@);
    r
}

fn clone_pairs(v: &Vec<(String, String)>) -> (r: Vec<(String, String)>)
    ensures
        pairs_view(r@) == pairs_view(v@),
{
    let mut r: Vec<(String, String)> = Vec::new();
    let mut k: usize = 0;
    while k < v.len()
        invariant
            k <= v.len(),
            pairs_view(r@) == pairs_view(v@).take(k as int),
        decreases v.len() - k,
    {
        let ghost r0 = pairs_view(r@);
        r.push((v[k].0.clone(), v[k].1.clone()));
        assert(pairs_view(r@) =~= r0.push((v@[k as int].0@, v@[k as int].1@)));
        assert(pairs_view(v@).take(k + 1) =~= pairs_view(v@).take(k as int).push(pairs_view(v@)[k as int]));
        k += 1;
    }
    assert(pairs_view(v@).take(v.len() as int) =~= pairs_view(v@));
    r
}

impl PrFlow {
    /// Starts a flow that proposes `files` (repository-relative path and
    /// content) as one commit on the new branch `new_branch`, branched from
    /// `base_branch`, with a pull request titled `title`.
    pub fn start(base_branch: String, new_branch: String, files: Vec<(String, String)>, title: String, body: String) -> (r: (
        PrFlow,
        PrAction,
    ))
        requires
            contents_fit(pairs_view(files@)),
            updater::names_distinct(pairs_view(files@)),
        ensures
            (r.0@, r.1@) == start_spec(base_branch@, new_branch@, pairs_view(files@), title@, body@),
            flow_ok(r.0@),
    {
        let empty = files.len() == 0;
        let mut rest = text::chars_of("/git/ref/heads/");
        text::push_all(&mut rest, &text::chars_of(base_branch.as_str()));
        let flow = PrFlow {
            phase: if empty {
                PrPhase::Finished
            } else {
                PrPhase::BaseRef
            },
            base_branch,
            new_branch,
            files,
            title,
            body,
            base_sha: string_of(&Vec::new()),
            base_tree: string_of(&Vec::new()),
            entries: Vec::new(),
            new_tree: string_of(&Vec::new()),
            new_commit: string_of(&Vec::new()),
        };
        assert(pairs_view(flow.entries@) =~= Seq::empty());
        if empty {
            (flow, PrAction::Fail(text::owned("No files to commit")))
        } else {
            let endpoint = endpoint_of(&rest);
            let reply = path_of(vec!["object", "sha"]);
            proof {
                assert(text::strings_view(reply@) =~= seq!["object"@, "sha"@]);
            }
            (flow, PrAction::Request { post: false, endpoint, body: ApiBody::Empty, reply })
        }
    }

    fn blob_action(&self, i: usize) -> (r: PrAction)
        requires
            i < self.files@.len(),
            contents_fit(self@.files),
        ensures
            r@ == blob_request(self@, i as int),
    {
        let bytes = self.files[i].1.as_str().as_bytes();
        proof {
            assert(self@.files[i as int].1 == self.files@[i as int].1@);
        }
        let content = outside::base64_encode(bytes);
        let reply = path_of(vec!["sha"]);
        proof {
            assert(text::strings_view(reply@) =~= seq!["sha"@]);
        }
        PrAction::Request {
            post: true,
            endpoint: endpoint_of(&text::chars_of("/git/blobs")),
            body: ApiBody::Blob { content },
            reply,
        }
    }

    /// Takes the reply to the last request and gives the next action.
    pub fn advance(&mut self, event: Result<Option<String>, String>) -> (r: PrAction)
        requires
            flow_ok(old(self)@),
            old(self).phase != PrPhase::Finished,
        ensures
            (final(self)@, r@) == advance_spec(old(self)@, event_view(event)),
            flow_ok(final(self)@),
    {
        let reply = match event {
            Err(e) => {
                self.phase = PrPhase::Finished;
                return PrAction::Fail(e);
            },
            Ok(reply) => reply,
        };
        match self.phase {
            PrPhase::BaseRef => match reply {
                Some(sha) => {
                    let mut rest = text::chars_of("/git/commits/");
                    text::push_all(&mut rest, &text::chars_of(sha.as_str()));
                    self.phase = PrPhase::BaseCommit;
                    self.base_sha = sha;
                    let path = path_of(vec!["tree", "sha"]);
                    proof {
                        assert(text::strings_view(path@) =~= seq!["tree"@, "sha"@]);
                    }
                    PrAction::Request { post: false, endpoint: endpoint_of(&rest), body: ApiBody::Empty, reply: path }
                },
                None => {
                    self.phase = PrPhase::Finished;
                    PrAction::Fail(text::owned("Missing base ref SHA"))
                },
            },
            PrPhase::BaseCommit => match reply {
                Some(sha) => {
                    self.phase = PrPhase::Blob(0);
                    self.base_tree = sha;
                    self.blob_action(0)
                },
                None => {
                    self.phase = PrPhase::Finished;
                    PrAction::Fail(text::owned("Missing base tree SHA"))
                },
            },
            PrPhase::Blob(i) => match reply {
                Some(sha) => {
                    let n = self.files.len();
                    assert(i < n);
                    let ghost e0 = pairs_view(self.entries@);
                    let path = self.files[i].0.clone();
                    self.entries.push((path, sha));
                    proof {
                        assert(pairs_view(self.entries@) =~= e0.push((old(self)@.files[i as int].0, sha@)));
                    }
                    if i + 1 < n {
                        self.phase = PrPhase::Blob(i + 1);
                        self.blob_action(i + 1)
                    } else {
                        self.phase = PrPhase::Tree;
                        let reply = path_of(vec!["sha"]);
                        proof {
                            assert(text::strings_view(reply@) =~= seq!["sha"@]);
                        }
                        PrAction::Request {
                            post: true,
                            endpoint: endpoint_of(&text::chars_of("/git/trees")),
                            body: ApiBody::Tree { base_tree: self.base_tree.clone(), entries: clone_pairs(&self.entries) },
                            reply,
                        }
                    }
                },
                None => {
                    self.phase = PrPhase::Finished;
                    let mut m = text::chars_of("Missing blob SHA for ");
                    text::push_all(&mut m, &text::chars_of(self.files[i].0.as_str()));
                    PrAction::Fail(string_of(&m))
                },
            },
            PrPhase::Tree => match reply {
                Some(sha) => {
                    self.phase = PrPhase::Commit;
                    let tree = sha.clone();
                    self.new_tree = sha;
                    let reply = path_of(vec!["sha"]);
                    proof {
                        assert(text::strings_view(reply@) =~= seq!["sha"@]);
                    }
                    PrAction::Request {
                        post: true,
                        endpoint: endpoint_of(&text::chars_of("/git/commits")),
                        body: ApiBody::Commit { message: self.title.clone(), tree, parent: self.base_sha.clone() },
                        reply,
                    }
                },
                None => {
                    self.phase = PrPhase::Finished;
                    PrAction::Fail(text::owned("Missing new tree SHA"))
                },
            },
            PrPhase::Commit => match reply {
                Some(sha) => {
                    self.phase = PrPhase::Branch;
                    let commit = sha.clone();
                    self.new_commit = sha;
                    let mut ref_name = text::chars_of("refs/heads/");
                    text::push_all(&mut ref_name, &text::chars_of(self.new_branch.as_str()));
                    let reply: Vec<String> = Vec::new();
                    proof {
                        assert(text::strings_view(reply@) =~= Seq::empty());
                    }
                    PrAction::Request {
                        post: true,
                        endpoint: endpoint_of(&text::chars_of("/git/refs")),
                        body: ApiBody::Branch { ref_name: string_of(&ref_name), sha: commit },
                        reply,
                    }
                },
                None => {
                    self.phase = PrPhase::Finished;
                    PrAction::Fail(text::owned("Missing new commit SHA"))
                },
            },
            PrPhase::Branch => {
                self.phase = PrPhase::Pull;
                let reply = path_of(vec!["html_url"]);
                proof {
                    assert(text::strings_view(reply@) =~= seq!["html_url"@]);
                }
                PrAction::Request {
                    post: true,
                    endpoint: endpoint_of(&text::chars_of("/pulls")),
                    body: ApiBody::Pull {
                        title: self.title.clone(),
                        body: self.body.clone(),
                        head: self.new_branch.clone(),
                        base: self.base_branch.clone(),
                    },
                    reply,
                }
            },
            PrPhase::Pull => {
                self.phase = PrPhase::Finished;
                match reply {
                    Some(url) => PrAction::Done(url),
                    None => PrAction::Fail(text::owned("Missing PR URL")),
                }
            },
            PrPhase::Finished => {
                PrAction::Fail(string_of(&Vec::new()))
            },
        }
    }
}

} // verus!
